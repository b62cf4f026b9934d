//! The balance rule of double-entry bookkeeping, and the posting: one line
//! of a transaction.

use std::collections::HashMap;
use uuid::Uuid;
use vstd::prelude::*;
use crate::money::{
    code_number, fits_i64, is_code_bytes, lemma_code_number_injective, Money, MoneyError, MoneyView,
};

verus! {

broadcast use vstd::std_specs::hash::group_hash_axioms;

/// The views of a list of amounts.
pub open spec fn views(amounts: Seq<Money>) -> Seq<MoneyView> {
    amounts.map_values(|m: Money| m@)
}

/// The sum of the amounts of the list that are in currency `c`.
pub open spec fn currency_total(amounts: Seq<MoneyView>, c: Seq<u8>) -> int
    decreases amounts.len(),
{
    if amounts.len() == 0 {
        0
    } else {
        currency_total(amounts.drop_last(), c) + if amounts.last().currency == c {
            amounts.last().amount
        } else {
            0
        }
    }
}

/// Adding the amounts up one by one, each currency on its own, no running
/// total leaves the range of `i64`.
pub open spec fn running_totals_fit(amounts: Seq<MoneyView>) -> bool {
    forall|k: int|
        0 <= k < amounts.len() ==> fits_i64(
            #[trigger] currency_total(amounts.take(k + 1), amounts[k].currency),
        )
}

/// For every currency, the amounts in that currency add up to exactly zero.
pub open spec fn balances(amounts: Seq<MoneyView>) -> bool {
    forall|c: Seq<u8>| #[trigger] currency_total(amounts, c) == 0
}

proof fn lemma_total_step(amounts: Seq<MoneyView>, i: int, c: Seq<u8>)
    requires
        0 <= i < amounts.len(),
    ensures
        currency_total(amounts.take(i + 1), c) == currency_total(amounts.take(i), c) + if amounts[i].currency
            == c {
            amounts[i].amount
        } else {
            0
        },
{
    assert(amounts.take(i + 1).drop_last() =~= amounts.take(i));
}

/// A currency that no amount of the list is in adds up to zero.
proof fn lemma_total_absent(amounts: Seq<MoneyView>, c: Seq<u8>)
    requires
        forall|j: int| 0 <= j < amounts.len() ==> (#[trigger] amounts[j]).currency != c,
    ensures
        currency_total(amounts, c) == 0,
    decreases amounts.len(),
{
    if amounts.len() > 0 {
        lemma_total_absent(amounts.drop_last(), c);
    }
}

/// The total of a currency over two lists one after the other is the sum
/// of its totals over each.
proof fn lemma_total_concat(a: Seq<MoneyView>, b: Seq<MoneyView>, c: Seq<u8>)
    ensures
        currency_total(a + b, c) == currency_total(a, c) + currency_total(b, c),
    decreases b.len(),
{
    if b.len() == 0 {
        assert(a + b =~= a);
    } else {
        assert((a + b).drop_last() =~= a + b.drop_last());
        lemma_total_concat(a, b.drop_last(), c);
    }
}

/// Balanced lists put together stay balanced: a ledger made of balanced
/// transactions balances as a whole.
pub proof fn lemma_balanced_lists_concat(a: Seq<Money>, b: Seq<Money>)
    requires
        balances(views(a)),
        balances(views(b)),
    ensures
        balances(views(a + b)),
{
    assert(views(a + b) =~= views(a) + views(b));
    assert forall|c: Seq<u8>| #[trigger] currency_total(views(a + b), c) == 0 by {
        lemma_total_concat(views(a), views(b), c);
        assert(currency_total(views(a), c) == 0);
        assert(currency_total(views(b), c) == 0);
    }
}

/// What one amount adds to the total of currency `c`.
pub open spec fn contribution(m: MoneyView, c: Seq<u8>) -> int {
    if m.currency == c {
        m.amount
    } else {
        0
    }
}

/// Taking one amount out of a list takes its contribution out of the total.
proof fn lemma_total_remove(v: Seq<MoneyView>, k: int, c: Seq<u8>)
    requires
        0 <= k < v.len(),
    ensures
        currency_total(v, c) == currency_total(v.remove(k), c) + contribution(v[k], c),
{
    let (front, one, back) = (v.take(k), seq![v[k]], v.skip(k + 1));
    assert(v =~= front + one + back);
    assert(v.remove(k) =~= front + back);
    lemma_total_concat(front + one, back, c);
    lemma_total_concat(front, one, c);
    lemma_total_concat(front, back, c);
    assert(one.drop_last() =~= Seq::<MoneyView>::empty());
    assert(currency_total(one.drop_last(), c) == 0);
    assert(currency_total(one, c) == contribution(v[k], c));
}

/// Lists with the same amounts, in whatever order, have the same totals.
proof fn lemma_total_ignores_order(s1: Seq<Money>, s2: Seq<Money>, c: Seq<u8>)
    requires
        s1.to_multiset() == s2.to_multiset(),
    ensures
        currency_total(views(s1), c) == currency_total(views(s2), c),
    decreases s1.len(),
{
    broadcast use vstd::seq_lib::group_to_multiset_ensures;

    if s1.len() == 0 {
        assert(s2.to_multiset().len() == 0);
        assert(views(s1) =~= Seq::<MoneyView>::empty());
        assert(views(s2) =~= Seq::<MoneyView>::empty());
    } else {
        let x = s1.last();
        let rest1 = s1.drop_last();
        assert(s1 =~= rest1.push(x));
        assert(s1.to_multiset() == rest1.to_multiset().insert(x));
        assert(s2.to_multiset().count(x) > 0);
        assert(s2.contains(x));
        let k = choose|k: int| 0 <= k < s2.len() && s2[k] == x;
        let rest2 = s2.remove(k);
        assert(rest2.to_multiset() == s2.to_multiset().remove(x));
        assert(rest2.to_multiset() =~= rest1.to_multiset());
        lemma_total_ignores_order(rest1, rest2, c);
        assert(views(s1).drop_last() =~= views(rest1));
        assert(views(s2).remove(k) =~= views(rest2));
        lemma_total_remove(views(s2), k, c);
    }
}

/// Whether a list balances does not depend on the order of its amounts.
pub proof fn lemma_balance_ignores_order(a: Seq<Money>, b: Seq<Money>)
    requires
        a.to_multiset() == b.to_multiset(),
    ensures
        balances(views(a)) == balances(views(b)),
{
    if balances(views(a)) {
        assert forall|c: Seq<u8>| #[trigger] currency_total(views(b), c) == 0 by {
            lemma_total_ignores_order(a, b, c);
            assert(currency_total(views(a), c) == 0);
        }
    }
    if balances(views(b)) {
        assert forall|c: Seq<u8>| #[trigger] currency_total(views(a), c) == 0 by {
            lemma_total_ignores_order(a, b, c);
            assert(currency_total(views(b), c) == 0);
        }
    }
}

/// One amount that is not zero, added to a balanced list, unbalances it;
/// an amount and its exact opposite in the same currency balance each other.
pub proof fn lemma_balance_needs_exact_zero(a: Seq<Money>, x: Money, y: Money)
    ensures
        balances(views(a)) && x@.amount != 0 ==> !balances(views(a.push(x))),
        x@.currency == y@.currency && y@.amount == -x@.amount ==> balances(views(seq![x, y])),
{
    if balances(views(a)) && x@.amount != 0 {
        assert(views(a.push(x)).drop_last() =~= views(a));
        assert(currency_total(views(a), x@.currency) == 0);
        assert(currency_total(views(a.push(x)), x@.currency) != 0);
    }
    if x@.currency == y@.currency && y@.amount == -x@.amount {
        let v = views(seq![x, y]);
        assert forall|c: Seq<u8>| #[trigger] currency_total(v, c) == 0 by {
            assert(v.drop_last() =~= seq![x@]);
            assert(v.drop_last().drop_last() =~= Seq::<MoneyView>::empty());
            assert(currency_total(v.drop_last().drop_last(), c) == 0);
            assert(v[0] == x@ && v[1] == y@);
            assert(v.last() == y@);
            assert(v.drop_last().last() == x@);
            assert(currency_total(v.drop_last(), c) == contribution(x@, c));
            assert(currency_total(v, c) == contribution(x@, c) + contribution(y@, c));
        }
    }
}

/// Checks that a list of amounts balances: for each currency, the sum of its
/// amounts is exactly zero. Currencies do not mix: each keeps its own count.
/// Fails with `MoneyError::Overflow` when a running total of a currency
/// leaves the range of `i64`.
pub fn is_balanced(amounts: &[Money]) -> (r: Result<bool, MoneyError>)
    ensures
        r is Ok <==> running_totals_fit(views(amounts@)),
        r matches Ok(b) ==> b == balances(views(amounts@)),
        r is Err ==> r matches Err(MoneyError::Overflow),
{
    let ghost v = views(amounts@);
    // One bucket per currency, keyed by the code's number.
    let mut totals: HashMap<u32, Money> = HashMap::new();
    let mut i: usize = 0;
    while i < amounts.len()
        invariant
            v == views(amounts@),
            0 <= i <= amounts.len(),
            forall|key: u32|
                #[trigger] totals@.contains_key(key) ==> {
                    &&& code_number(totals@[key]@.currency) == key
                    &&& is_code_bytes(totals@[key]@.currency)
                    &&& totals@[key]@.amount == currency_total(
                        v.take(i as int),
                        totals@[key]@.currency,
                    )
                },
            forall|c: Seq<u8>|
                c.len() == 3 && !totals@.contains_key(#[trigger] code_number(c) as u32)
                    ==> currency_total(v.take(i as int), c) == 0,
            forall|j: int| 0 <= j < i ==> is_code_bytes(#[trigger] v[j].currency),
            forall|j: int| 0 <= j < i ==> totals@.contains_key(code_number(#[trigger] v[j].currency) as u32),
            running_totals_fit(v.take(i as int)),
        decreases amounts.len() - i,
    {
        let amount = amounts[i];
        let currency = amount.currency();
        let key = currency.number();
        let ghost c = currency@;
        // The bucket of this currency, or a new one at zero.
        let current = match totals.get(&key) {
            Some(m) => *m,
            None => Money::zero(currency),
        };
        proof {
            assert(v[i as int] == amount@);
            if totals@.contains_key(key) {
                lemma_code_number_injective(totals@[key]@.currency, c);
            } else {
                assert(code_number(c) as u32 == key);
            }
            assert(current@.currency == c);
            assert(current@.amount == currency_total(v.take(i as int), c));
            lemma_total_step(v, i as int, c);
        }
        match current.try_add(amount) {
            Ok(sum) => {
                let ghost old_totals = totals@;
                totals.insert(key, sum);
                proof {
                    assert forall|key2: u32| #[trigger] totals@.contains_key(key2) implies {
                        &&& code_number(totals@[key2]@.currency) == key2
                        &&& is_code_bytes(totals@[key2]@.currency)
                        &&& totals@[key2]@.amount == currency_total(
                            v.take(i + 1),
                            totals@[key2]@.currency,
                        )
                    } by {
                        if key2 != key {
                            let c2 = totals@[key2]@.currency;
                            lemma_total_step(v, i as int, c2);
                            if c2 == c {
                                assert(false);
                            }
                        }
                    }
                    assert forall|c2: Seq<u8>|
                        c2.len() == 3 && !totals@.contains_key(
                            #[trigger] code_number(c2) as u32,
                        ) implies currency_total(v.take(i + 1), c2) == 0 by {
                        lemma_total_step(v, i as int, c2);
                    }
                    assert forall|k: int| 0 <= k < i + 1 implies fits_i64(
                        #[trigger] currency_total(v.take(i + 1).take(k + 1), v.take(i + 1)[k].currency),
                    ) by {
                        if k < i {
                            assert(v.take(i + 1).take(k + 1) =~= v.take(i as int).take(k + 1));
                        } else {
                            assert(v.take(i + 1).take(k + 1) =~= v.take(i + 1));
                        }
                    }
                }
            },
            Err(e) => {
                proof {
                    assert(!fits_i64(currency_total(v.take(i + 1), v[i as int].currency)));
                    assert(v.take(i + 1) =~= v.take(i + 1).take(i + 1));
                    assert(!running_totals_fit(v));
                }
                return Err(e);
            },
        }
        i = i + 1;
    }
    proof {
        assert(v.take(i as int) =~= v);
    }
    // Balanced when every bucket ended at zero.
    let mut j: usize = 0;
    while j < amounts.len()
        invariant
            v == views(amounts@),
            i == amounts.len(),
            v.take(i as int) == v,
            running_totals_fit(v),
            0 <= j <= amounts.len(),
            forall|key: u32|
                #[trigger] totals@.contains_key(key) ==> {
                    &&& code_number(totals@[key]@.currency) == key
                    &&& is_code_bytes(totals@[key]@.currency)
                    &&& totals@[key]@.amount == currency_total(v, totals@[key]@.currency)
                },
            forall|k: int| 0 <= k < amounts.len() ==> is_code_bytes(#[trigger] v[k].currency),
            forall|k: int| 0 <= k < amounts.len() ==> totals@.contains_key(code_number(#[trigger] v[k].currency) as u32),
            forall|k: int| 0 <= k < j ==> currency_total(v, #[trigger] v[k].currency) == 0,
        decreases amounts.len() - j,
    {
        let currency = amounts[j].currency();
        let key = currency.number();
        proof {
            assert(v[j as int] == amounts@[j as int]@);
            assert(totals@.contains_key(key));
            lemma_code_number_injective(totals@[key]@.currency, currency@);
        }
        let zero = match totals.get(&key) {
            Some(m) => m.is_zero(),
            None => true,
        };
        if !zero {
            return Ok(false);
        }
        j = j + 1;
    }
    proof {
        assert forall|c: Seq<u8>| #[trigger] currency_total(v, c) == 0 by {
            if !(exists|k: int| 0 <= k < v.len() && v[k].currency == c) {
                lemma_total_absent(v, c);
            }
        }
    }
    Ok(true)
}

#[verifier::external_type_specification]
#[verifier::external_body]
pub struct ExUuid(Uuid);

/// `<uuid::Uuid as Clone>::clone`: `Uuid` derives `Clone` and `Copy`, so a
/// clone is the same value.
pub assume_specification[ <Uuid as Clone>::clone ](id: &Uuid) -> (r: Uuid)
    ensures
        r == *id,
;

/// The version number of an identifier, the one that
/// `uuid::Uuid::get_version_num` reports (the version field of RFC 9562).
pub uninterp spec fn uuid_version(id: Uuid) -> nat;

/// `uuid::Uuid::now_v7`: a new version-7 UUID made of the current time and
/// random bits. As its documentation and source show (it goes through
/// `timestamp::encode_unix_timestamp_millis`, which sets the version field
/// to 7), every identifier it returns is of version 7; its value otherwise depends on the clock and on chance, and is
/// left unstated. It panics if the system clock is set before 1970 or the
/// operating system's random source fails.
#[verifier::external_body]
fn new_v7_id() -> (r: Uuid)
    ensures
        uuid_version(r) == 7,
{
    Uuid::now_v7()
}

/// The text of a memo, if there is one.
pub open spec fn memo_view(memo: Option<String>) -> Option<Seq<char>> {
    match memo {
        Some(s) => Some(s@),
        None => None,
    }
}

/// What a posting stands for.
pub struct PostingView {
    pub id: Uuid,
    pub account_id: Uuid,
    pub amount: MoneyView,
    pub memo: Option<Seq<char>>,
}

/// A posting: an amount moved in an account, one line of a transaction.
///
/// Alone it means nothing; it makes sense inside the set of postings that
/// has to balance.
#[derive(Debug, Clone, PartialEq, Eq)]
pub struct Posting {
    id: Uuid,
    account_id: Uuid,
    amount: Money,
    memo: Option<String>,
}

impl View for Posting {
    type V = PostingView;

    closed spec fn view(&self) -> PostingView {
        PostingView {
            id: self.id,
            account_id: self.account_id,
            amount: self.amount@,
            memo: memo_view(self.memo),
        }
    }
}

impl Posting {
    /// Creates a posting with an identity of its own: a new version-7 UUID.
    pub fn new(account_id: Uuid, amount: Money, memo: Option<String>) -> (r: Self)
        ensures
            uuid_version(r@.id) == 7,
            r@.account_id == account_id,
            r@.amount == amount@,
            r@.memo == memo_view(memo),
    {
        let id = new_v7_id();
        Self::with_id(id, account_id, amount, memo)
    }

    /// A posting with the given identity.
    pub fn with_id(id: Uuid, account_id: Uuid, amount: Money, memo: Option<String>) -> (r: Self)
        ensures
            r@ == (PostingView {
                id: id,
                account_id: account_id,
                amount: amount@,
                memo: memo_view(memo),
            }),
    {
        Self { id, account_id, amount, memo }
    }

    pub fn id(&self) -> (r: Uuid)
        ensures
            r == self@.id,
    {
        self.id
    }

    pub fn account_id(&self) -> (r: Uuid)
        ensures
            r == self@.account_id,
    {
        self.account_id
    }

    pub fn amount(&self) -> (r: Money)
        ensures
            r@ == self@.amount,
    {
        self.amount
    }

    pub fn memo(&self) -> (r: Option<&str>)
        ensures
            r is Some <==> self@.memo is Some,
            r matches Some(s) ==> self@.memo == Some(s@),
    {
        match &self.memo {
            Some(m) => Some(m.as_str()),
            None => None,
        }
    }
}

} // verus!
