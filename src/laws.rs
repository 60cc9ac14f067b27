//! What encoding preserves of the order of values, for any well-formed
//! dictionary.
use vstd::prelude::*;

use crate::dict::{code_of, count_less, lemma_count_less, Dict, ValReq};
use crate::order::{equiv, lawful_order, lemma_equiv_symmetric, lemma_le_trans, lemma_lt_le, lt};

verus! {

/// Below `a` and `b` alike lie the same exact values when they compare equal,
/// and no more below `a` than below `b` when `a < b`.
proof fn lemma_ranks<T: ValReq>(s: Seq<T>, a: T, b: T)
    requires
        lawful_order::<T>(),
        crate::select::strictly_sorted(s),
    ensures
        lt(a, b) ==> count_less(s, a) <= count_less(s, b),
        lt(a, b) && count_less(s, a) == count_less(s, b) && count_less(s, a) < s.len() ==> !equiv(
            s[count_less(s, a) as int],
            a,
        ),
        equiv(a, b) ==> count_less(s, a) == count_less(s, b),
        equiv(a, b) && count_less(s, a) < s.len() ==> (equiv(s[count_less(s, a) as int], a)
            <==> equiv(s[count_less(s, a) as int], b)),
{
    lemma_count_less(s, a);
    lemma_count_less(s, b);
    let ka = count_less(s, a) as int;
    let kb = count_less(s, b) as int;
    lemma_equiv_symmetric(a, b);
    if lt(a, b) {
        if ka > kb {
            assert(lt(s[kb], a));
            lemma_lt_le(s[kb], a, b);
        }
        if ka == kb && ka < s.len() && equiv(s[ka], a) {
            lemma_lt_le(s[ka], a, b);
        }
    }
    if equiv(a, b) {
        if ka > kb {
            assert(lt(s[kb], a));
            lemma_lt_le(s[kb], a, b);
        }
        if kb > ka {
            assert(lt(s[ka], b));
            lemma_lt_le(s[ka], b, a);
        }
        if ka < s.len() {
            let x = s[ka];
            lemma_equiv_symmetric(x, a);
            lemma_equiv_symmetric(x, b);
            if equiv(x, a) {
                lemma_le_trans(x, a, b);
                lemma_le_trans(b, a, x);
            }
            if equiv(x, b) {
                lemma_le_trans(x, b, a);
                lemma_le_trans(a, b, x);
            }
        }
    }
}

/// A smaller code means a smaller value: `encode(a) < encode(b)` implies
/// `a < b`.
pub proof fn lemma_code_order_implies_value_order<T: ValReq>(d: Dict<T>, a: T, b: T)
    requires
        lawful_order::<T>(),
        d.wf(),
        code_of(d.codes@, a) < code_of(d.codes@, b),
    ensures
        lt(a, b),
{
    lemma_equiv_symmetric(a, b);
    if !lt(a, b) {
        if equiv(b, a) {
            lemma_equal_values_equal_codes(d, b, a);
        } else {
            lemma_value_order_implies_code_order(d, b, a);
        }
    }
}

/// Encoding keeps the order of values: `a < b` implies
/// `encode(a) <= encode(b)`.
pub proof fn lemma_value_order_implies_code_order<T: ValReq>(d: Dict<T>, a: T, b: T)
    requires
        lawful_order::<T>(),
        d.wf(),
        lt(a, b),
    ensures
        code_of(d.codes@, a) <= code_of(d.codes@, b),
{
    lemma_ranks(d.codes@, a, b);
}

/// Values that compare equal have the same code.
pub proof fn lemma_equal_values_equal_codes<T: ValReq>(d: Dict<T>, a: T, b: T)
    requires
        lawful_order::<T>(),
        d.wf(),
        equiv(a, b),
    ensures
        code_of(d.codes@, a) == code_of(d.codes@, b),
{
    lemma_ranks(d.codes@, a, b);
}

/// An exact code separates strictly: where `a < b` and either of the two
/// has an exact code, `encode(a) < encode(b)`.
pub proof fn lemma_exact_code_separates<T: ValReq>(d: Dict<T>, a: T, b: T)
    requires
        lawful_order::<T>(),
        d.wf(),
        lt(a, b),
        code_of(d.codes@, a) % 2 == 0 || code_of(d.codes@, b) % 2 == 0,
    ensures
        code_of(d.codes@, a) < code_of(d.codes@, b),
{
    let s = d.codes@;
    lemma_ranks(s, a, b);
    lemma_count_less(s, b);
    let ka = count_less(s, a) as int;
    let kb = count_less(s, b) as int;
    if ka == kb && ka < s.len() && equiv(s[ka], a) {
        lemma_equiv_symmetric(s[ka], a);
    }
}

} // verus!
