//! The order in which texts are listed: lexicographic, character by
//! character, by code point.

use crate::text::{code_of, lemma_code_of};
use vstd::prelude::*;

verus! {

/// Whether `a` comes before `b`: at the first place where they differ, `a`
/// has the smaller character, or `a` ends there and `b` goes on.
pub open spec fn lex_lt(a: Seq<char>, b: Seq<char>) -> bool
    decreases a.len(),
{
    if b.len() == 0 {
        false
    } else if a.len() == 0 {
        true
    } else if a[0] == b[0] {
        lex_lt(a.skip(1), b.skip(1))
    } else {
        code_of(a[0]) < code_of(b[0])
    }
}

/// No text comes before itself.
pub proof fn lemma_lex_irreflexive(a: Seq<char>)
    ensures
        !lex_lt(a, a),
    decreases a.len(),
{
    if a.len() > 0 {
        lemma_lex_irreflexive(a.skip(1));
    }
}

/// What comes before a text comes before everything after that text.
pub proof fn lemma_lex_transitive(a: Seq<char>, b: Seq<char>, c: Seq<char>)
    requires
        lex_lt(a, b),
        lex_lt(b, c),
    ensures
        lex_lt(a, c),
    decreases a.len(),
{
    if a.len() > 0 && b.len() > 0 && c.len() > 0 {
        if a[0] == b[0] && b[0] == c[0] {
            lemma_lex_transitive(a.skip(1), b.skip(1), c.skip(1));
        }
    }
}

/// Of two different texts one comes before the other.
pub proof fn lemma_lex_total(a: Seq<char>, b: Seq<char>)
    ensures
        lex_lt(a, b) || lex_lt(b, a) || a == b,
    decreases a.len(),
{
    if a.len() > 0 && b.len() > 0 {
        lemma_code_of(a[0], b[0]);
        if a[0] == b[0] {
            lemma_lex_total(a.skip(1), b.skip(1));
            if a.skip(1) == b.skip(1) {
                assert(a == seq![a[0]] + a.skip(1));
            }
        }
    }
}

/// How one text stands to another in the order.
#[derive(Debug, Clone, Copy, PartialEq, Eq)]
pub enum Order {
    Before,
    Same,
    After,
}

/// Tells how `a` stands to `b` in the order.
pub fn order_of(a: &Vec<char>, b: &Vec<char>) -> (r: Order)
    ensures
        r is Before <==> lex_lt(a@, b@),
        r is Same <==> a@ == b@,
        r is After <==> lex_lt(b@, a@),
{
    let mut i: usize = 0;
    assert(a@.skip(0) == a@);
    assert(b@.skip(0) == b@);
    while i < a.len() && i < b.len()
        invariant
            i <= a.len(),
            i <= b.len(),
            a@.take(i as int) == b@.take(i as int),
            lex_lt(a@, b@) == lex_lt(a@.skip(i as int), b@.skip(i as int)),
            lex_lt(b@, a@) == lex_lt(b@.skip(i as int), a@.skip(i as int)),
        decreases a.len() - i,
    {
        let x = a[i];
        let y = b[i];
        proof {
            assert(a@.skip(i as int).skip(1) == a@.skip(i + 1));
            assert(b@.skip(i as int).skip(1) == b@.skip(i + 1));
            lemma_code_of(x, y);
        }
        if x != y {
            return if (x as u32) < (y as u32) {
                Order::Before
            } else {
                Order::After
            };
        }
        i += 1;
    }
    proof {
        if a.len() == b.len() {
            lemma_lex_irreflexive(a@);
        }
    }
    if a.len() == b.len() {
        Order::Same
    } else if i == a.len() {
        Order::Before
    } else {
        Order::After
    }
}

} // verus!
