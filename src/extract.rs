use vstd::prelude::*;

verus! {

/// One labelled balance of a transaction: who owns how much of which token,
/// in the token's base units.
pub struct TokenBalance {
    pub owner: Option<String>,
    pub mint: String,
    pub amount: u64,
}

/// The balance snapshots of a fetched transaction, before and after it ran.
/// Either may be missing when the transaction carries no such metadata.
pub struct TransactionRecord {
    pub pre_balances: Option<Vec<TokenBalance>>,
    pub post_balances: Option<Vec<TokenBalance>>,
}

/// Direction of a detected balance change.
#[derive(PartialEq, Eq, Structural, Clone, Copy, Debug)]
pub enum Side {
    Buy,
    Sell,
}

impl Side {
    /// The word for the direction: `buy` for an increase, `sell` for a decrease.
    pub fn label(&self) -> (r: &'static str)
        ensures
            r@ == (if *self == Side::Buy { "buy"@ } else { "sell"@ }),
    {
        match self {
            Side::Buy => "buy",
            Side::Sell => "sell",
        }
    }
}

/// A change detected in one transaction.
pub struct TradeEvent {
    pub signature: String,
    pub mint: String,
    pub side: Side,
    pub amount: u64,
    pub slot: u64,
}

pub open spec fn owner_view(o: Option<String>) -> Option<Seq<char>> {
    match o {
        Some(s) => Some(s@),
        None => None,
    }
}

/// The amount held before the transaction by `owner` in `mint`: that of the
/// first matching entry of `pre` from index `i` on, zero where none matches.
pub open spec fn pre_amount_from(pre: Seq<TokenBalance>, owner: Seq<char>, mint: Seq<char>, i: int) -> int
    decreases pre.len() - i,
{
    if i < 0 || i >= pre.len() {
        0
    } else if owner_view(pre[i].owner) == Some(owner) && pre[i].mint@ == mint {
        pre[i].amount as int
    } else {
        pre_amount_from(pre, owner, mint, i + 1)
    }
}

pub open spec fn pre_amount(pre: Seq<TokenBalance>, owner: Seq<char>, mint: Seq<char>) -> int {
    pre_amount_from(pre, owner, mint, 0)
}

/// How much the post entry `e` moved against the matching pre entry.
pub open spec fn delta(pre: Seq<TokenBalance>, e: TokenBalance) -> int {
    e.amount as int - pre_amount(pre, e.owner->Some_0@, e.mint@)
}

/// Whether post entry `e` names an owner and shows a change.
pub open spec fn qualifies(pre: Seq<TokenBalance>, e: TokenBalance) -> bool {
    e.owner is Some && delta(pre, e) != 0
}

/// Index of the first qualifying entry of `post` from index `i` on.
pub open spec fn first_change_from(pre: Seq<TokenBalance>, post: Seq<TokenBalance>, i: int) -> Option<int>
    decreases post.len() - i,
{
    if i < 0 || i >= post.len() {
        None
    } else if qualifies(pre, post[i]) {
        Some(i)
    } else {
        first_change_from(pre, post, i + 1)
    }
}

pub open spec fn first_change(pre: Seq<TokenBalance>, post: Seq<TokenBalance>) -> Option<int> {
    first_change_from(pre, post, 0)
}

/// The event that post entry `e` gives for transaction `signature` at `slot`.
pub open spec fn describes(ev: TradeEvent, signature: Seq<char>, slot: u64, pre: Seq<TokenBalance>, e: TokenBalance) -> bool {
    &&& ev.signature@ == signature
    &&& ev.mint@ == e.mint@
    &&& ev.slot == slot
    &&& ev.side == (if delta(pre, e) > 0 { Side::Buy } else { Side::Sell })
    &&& ev.amount as int == (if delta(pre, e) > 0 { delta(pre, e) } else { -delta(pre, e) })
}

/// If every owned entry after the transaction equals its entry before, no
/// event is detected.
pub proof fn lemma_unchanged_gives_none(pre: Seq<TokenBalance>, post: Seq<TokenBalance>, i: int)
    requires
        0 <= i,
        forall|j: int| 0 <= j < post.len() && (#[trigger] post[j]).owner is Some ==> delta(pre, post[j]) == 0,
    ensures
        first_change_from(pre, post, i) is None,
    decreases post.len() - i,
{
    if i < post.len() {
        lemma_unchanged_gives_none(pre, post, i + 1);
    }
}

fn find_pre_amount(pre: &Vec<TokenBalance>, owner: &String, mint: &String) -> (r: u64)
    ensures
        r as int == pre_amount(pre@, owner@, mint@),
{
    let mut i: usize = 0;
    while i < pre.len()
        invariant
            i <= pre.len(),
            pre_amount(pre@, owner@, mint@) == pre_amount_from(pre@, owner@, mint@, i as int),
        decreases pre.len() - i,
    {
        let b = &pre[i];
        let same_owner = match &b.owner {
            Some(o) => *o == *owner,
            None => false,
        };
        if same_owner && b.mint == *mint {
            return b.amount;
        }
        i = i + 1;
    }
    0
}

/// Turns the first post entry whose amount moved into an event; scanning stops
/// there. Entries without an owner are passed over.
pub fn parse_trade(signature: String, slot: u64, transaction: &TransactionRecord) -> (r: Option<TradeEvent>)
    ensures
        transaction.pre_balances is None || transaction.post_balances is None ==> r is None,
        transaction.pre_balances is Some && transaction.post_balances is Some ==> ({
            let pre = transaction.pre_balances->Some_0@;
            let post = transaction.post_balances->Some_0@;
            match first_change(pre, post) {
                Some(k) => r is Some && describes(r->Some_0, signature@, slot, pre, post[k]),
                None => r is None,
            }
        }),
{
    let pre = match &transaction.pre_balances {
        Some(b) => b,
        None => return None,
    };
    let post = match &transaction.post_balances {
        Some(b) => b,
        None => return None,
    };
    let mut i: usize = 0;
    while i < post.len()
        invariant
            i <= post.len(),
            first_change(pre@, post@) == first_change_from(pre@, post@, i as int),
            transaction.pre_balances == Some(*pre),
            transaction.post_balances == Some(*post),
        decreases post.len() - i,
    {
        let e = &post[i];
        match &e.owner {
            Some(owner) => {
                let before = find_pre_amount(pre, owner, &e.mint);
                if e.amount != before {
                    let (side, amount) = if e.amount > before {
                        (Side::Buy, e.amount - before)
                    } else {
                        (Side::Sell, before - e.amount)
                    };
                    let mint = e.mint.clone();
                    let ev = TradeEvent { signature, mint, side, amount, slot };
                    return Some(ev);
                }
            },
            None => {},
        }
        i = i + 1;
    }
    None
}

} // verus!
