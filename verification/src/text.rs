//! Text building: the one character-append primitive the crate trusts, and
//! verified decimal rendering on top of it. Node names on the wire have the
//! shape `n<index>`, so the cluster code needs to render indices exactly.

use vstd::prelude::*;

verus! {

/// Relies on std's `String::push`: appends the given character to the end of
/// this `String` (and does nothing else to it).
pub assume_specification[ String::push ](s: &mut String, ch: char)
    ensures
        final(s)@ == old(s)@.push(ch),
;

/// The character for one decimal digit.
pub open spec fn digit_char(d: int) -> char {
    if d == 0 {
        '0'
    } else if d == 1 {
        '1'
    } else if d == 2 {
        '2'
    } else if d == 3 {
        '3'
    } else if d == 4 {
        '4'
    } else if d == 5 {
        '5'
    } else if d == 6 {
        '6'
    } else if d == 7 {
        '7'
    } else if d == 8 {
        '8'
    } else {
        '9'
    }
}

/// The decimal representation of `n`, most significant digit first, without
/// leading zeroes (`0` itself is the single character `'0'`).
pub open spec fn dec_rep(n: nat) -> Seq<char>
    decreases n,
{
    if n < 10 {
        seq![digit_char(n as int)]
    } else {
        dec_rep(n / 10).push(digit_char((n % 10) as int))
    }
}

/// The wire name of the cluster node with the given index: `n<index>`.
pub open spec fn node_name_seq(i: nat) -> Seq<char> {
    seq!['n'].add(dec_rep(i))
}

pub proof fn lemma_digit_char_injective(x: int, y: int)
    requires
        0 <= x < 10,
        0 <= y < 10,
        digit_char(x) == digit_char(y),
    ensures
        x == y,
{
    assert(digit_char(0) == '0');
    assert(digit_char(1) == '1');
    assert(digit_char(2) == '2');
    assert(digit_char(3) == '3');
    assert(digit_char(4) == '4');
    assert(digit_char(5) == '5');
    assert(digit_char(6) == '6');
    assert(digit_char(7) == '7');
    assert(digit_char(8) == '8');
    assert(digit_char(9) == '9');
}

pub proof fn lemma_dec_rep_len(n: nat)
    ensures
        dec_rep(n).len() >= 1,
        n >= 10 ==> dec_rep(n).len() >= 2,
    decreases n,
{
    if n >= 10 {
        lemma_dec_rep_len(n / 10);
    }
}

/// Distinct numbers render as distinct digit strings.
pub proof fn lemma_dec_rep_injective(a: nat, b: nat)
    requires
        dec_rep(a) == dec_rep(b),
    ensures
        a == b,
    decreases a,
{
    lemma_dec_rep_len(a);
    lemma_dec_rep_len(b);
    if a < 10 && b < 10 {
        assert(dec_rep(a) == seq![digit_char(a as int)]);
        assert(dec_rep(b) == seq![digit_char(b as int)]);
        assert(dec_rep(a)[0] == digit_char(a as int));
        assert(dec_rep(b)[0] == digit_char(b as int));
        lemma_digit_char_injective(a as int, b as int);
    } else if a < 10 {
        assert(dec_rep(a).len() == 1);
    } else if b < 10 {
        assert(dec_rep(b).len() == 1);
    } else {
        assert(dec_rep(a) == dec_rep(a / 10).push(digit_char((a % 10) as int)));
        assert(dec_rep(b) == dec_rep(b / 10).push(digit_char((b % 10) as int)));
        assert(dec_rep(a).last() == digit_char((a % 10) as int));
        assert(dec_rep(b).last() == digit_char((b % 10) as int));
        lemma_digit_char_injective((a % 10) as int, (b % 10) as int);
        assert(a % 10 == b % 10);
        assert(dec_rep(a).drop_last() =~= dec_rep(a / 10));
        assert(dec_rep(b).drop_last() =~= dec_rep(b / 10));
        lemma_dec_rep_injective(a / 10, b / 10);
    }
}

/// Distinct indices give distinct node names.
pub proof fn lemma_node_name_injective(a: nat, b: nat)
    requires
        node_name_seq(a) == node_name_seq(b),
    ensures
        a == b,
{
    assert(node_name_seq(a).subrange(1, node_name_seq(a).len() as int) =~= dec_rep(a));
    assert(node_name_seq(b).subrange(1, node_name_seq(b).len() as int) =~= dec_rep(b));
    lemma_dec_rep_injective(a, b);
}

fn digit_to_char(d: u64) -> (c: char)
    requires
        d < 10,
    ensures
        c == digit_char(d as int),
{
    if d == 0 {
        '0'
    } else if d == 1 {
        '1'
    } else if d == 2 {
        '2'
    } else if d == 3 {
        '3'
    } else if d == 4 {
        '4'
    } else if d == 5 {
        '5'
    } else if d == 6 {
        '6'
    } else if d == 7 {
        '7'
    } else if d == 8 {
        '8'
    } else {
        '9'
    }
}

/// Appends the decimal representation of `n` to `s`.
pub fn push_dec(s: &mut String, n: u64)
    ensures
        final(s)@ == old(s)@.add(dec_rep(n as nat)),
    decreases n,
{
    let ghost init = s@;
    if n >= 10 {
        push_dec(s, n / 10);
    }
    let c = digit_to_char(n % 10);
    s.push(c);
    proof {
        if n < 10 {
            assert(s@ =~= init.add(dec_rep(n as nat)));
        } else {
            assert(s@ =~= init.add(dec_rep(n as nat)));
        }
    }
}

/// Builds the wire name `n<i>` of the node with index `i`.
pub fn node_name(i: u64) -> (r: String)
    ensures
        r@ == node_name_seq(i as nat),
{
    let mut s = String::new();
    s.push('n');
    push_dec(&mut s, i);
    proof {
        assert(s@ =~= node_name_seq(i as nat));
    }
    return s;
}

} // verus!
