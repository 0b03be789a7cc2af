//! Segment naming and discovery.
//!
//! A segment file is named by its generation number with a `.log`
//! extension. Given the names found in a data directory, discovery
//! returns the generation numbers in ascending order, silently skipping
//! names that are not `<digits>.log` or whose number overflows 64 bits.

use vstd::prelude::*;
use vstd::string::{StrSliceExecFns, StringExecFns};

verus! {

/// The `.log` file extension, as characters.
pub open spec fn log_suffix() -> Seq<char> {
    seq!['.', 'l', 'o', 'g']
}

/// True for an ASCII decimal digit.
pub open spec fn is_digit(c: char) -> bool {
    48 <= c as u32 <= 57
}

/// The number the digit characters spell, most significant first.
pub open spec fn digits_val(s: Seq<char>) -> int
    decreases s.len(),
{
    if s.len() == 0 {
        0
    } else {
        digits_val(s.drop_last()) * 10 + (s.last() as u32 - 48)
    }
}

/// True when every character of `s` is a digit.
pub open spec fn all_digits(s: Seq<char>) -> bool {
    forall|i: int| 0 <= i < s.len() ==> is_digit(#[trigger] s[i])
}

/// The generation number a file name carries: the name must be
/// `<digits>.log`, with at least one digit and a value that fits 64 bits.
/// Any other name names no segment.
pub open spec fn gen_of_name(s: Seq<char>) -> Option<u64> {
    if s.len() >= 5 && s.subrange(s.len() - 4, s.len() as int) == log_suffix() && all_digits(
        s.subrange(0, s.len() - 4),
    ) && digits_val(s.subrange(0, s.len() - 4)) <= u64::MAX {
        Some(digits_val(s.subrange(0, s.len() - 4)) as u64)
    } else {
        None
    }
}

/// The generation numbers of the names that name segments, in the order
/// the names were given.
pub open spec fn parsed_gens(names: Seq<String>) -> Seq<u64>
    decreases names.len(),
{
    if names.len() == 0 {
        Seq::empty()
    } else {
        parsed_gens(names.drop_last()) + (match gen_of_name(names.last()@) {
            Some(g) => seq![g],
            None => Seq::empty(),
        })
    }
}

/// Ascending order (duplicates allowed).
pub open spec fn sorted(s: Seq<u64>) -> bool {
    forall|i: int, j: int| 0 <= i < j < s.len() ==> s[i] <= s[j]
}

proof fn lemma_digits_val_nonneg(s: Seq<char>)
    requires
        all_digits(s),
    ensures
        digits_val(s) >= 0,
    decreases s.len(),
{
    if s.len() > 0 {
        assert(all_digits(s.drop_last())) by {
            assert(forall|i: int| 0 <= i < s.len() - 1 ==> s.drop_last()[i] == s[i]);
        }
        lemma_digits_val_nonneg(s.drop_last());
        assert(is_digit(s.last()));
    }
}

/// A longer digit string never spells a smaller number.
proof fn lemma_digits_val_prefix(s: Seq<char>, j: int)
    requires
        all_digits(s),
        0 <= j <= s.len(),
    ensures
        digits_val(s.take(j)) <= digits_val(s),
    decreases s.len() - j,
{
    lemma_digits_val_nonneg(s);
    if j == s.len() {
        assert(s.take(j) =~= s);
    } else {
        lemma_digits_val_prefix(s, j + 1);
        assert(s.take(j + 1).drop_last() =~= s.take(j));
        assert(s.take(j + 1).last() == s[j]);
        assert(all_digits(s.take(j))) by {
            assert(forall|i: int| 0 <= i < j ==> s.take(j)[i] == s[i]);
        }
        lemma_digits_val_nonneg(s.take(j));
        assert(digits_val(s.take(j + 1)) == digits_val(s.take(j)) * 10 + (s[j] as u32 - 48));
        assert(digits_val(s.take(j)) * 10 >= digits_val(s.take(j))) by (nonlinear_arith)
            requires
                digits_val(s.take(j)) >= 0,
        ;
    }
}

/// Parses a file name as a segment name.
///
/// Returns the generation number for names of the form `<digits>.log`
/// whose value fits 64 bits, and `None` for every other name.
#[verifier::loop_isolation(false)]
pub fn parse_gen(name: &String) -> (r: Option<u64>)
    ensures
        r == gen_of_name(name@),
{
    let s = name.as_str();
    let n = s.unicode_len();
    if n < 5 {
        return None;
    }
    let c1 = s.get_char(n - 4);
    let c2 = s.get_char(n - 3);
    let c3 = s.get_char(n - 2);
    let c4 = s.get_char(n - 1);
    if !(c1 == '.' && c2 == 'l' && c3 == 'o' && c4 == 'g') {
        proof {
            if s@.subrange(s@.len() - 4, s@.len() as int) == log_suffix() {
                assert(s@.subrange(s@.len() - 4, s@.len() as int)[0] == c1);
                assert(s@.subrange(s@.len() - 4, s@.len() as int)[1] == c2);
                assert(s@.subrange(s@.len() - 4, s@.len() as int)[2] == c3);
                assert(s@.subrange(s@.len() - 4, s@.len() as int)[3] == c4);
            }
        }
        return None;
    }
    proof {
        assert(s@.subrange(s@.len() - 4, s@.len() as int) =~= log_suffix());
    }
    let stem_len = n - 4;
    let ghost stem = s@.subrange(0, s@.len() - 4);
    let mut acc: u64 = 0;
    let mut i: usize = 0;
    while i < stem_len
        invariant
            stem_len == s@.len() - 4,
            s@.len() >= 5,
            i <= stem_len,
            stem == s@.subrange(0, s@.len() - 4),
            all_digits(stem.take(i as int)),
            acc == digits_val(stem.take(i as int)),
        decreases stem_len - i,
    {
        let c = s.get_char(i);
        let cv = c as u32;
        if cv < 48 || cv > 57 {
            proof {
                assert(stem[i as int] == c);
                assert(!all_digits(stem));
            }
            return None;
        }
        let d = (cv - 48) as u64;
        let acc10 = match acc.checked_mul(10) {
            Some(x) => x,
            None => {
                proof {
                    overflow_means_no_gen(stem, i as int, acc, d);
                }
                return None;
            },
        };
        let acc2 = match acc10.checked_add(d) {
            Some(x) => x,
            None => {
                proof {
                    overflow_means_no_gen(stem, i as int, acc, d);
                }
                return None;
            },
        };
        proof {
            assert(stem.take(i + 1).drop_last() =~= stem.take(i as int));
            assert(stem.take(i + 1).last() == stem[i as int]);
            assert(stem[i as int] == c);
        }
        acc = acc2;
        i = i + 1;
    }
    proof {
        assert(stem.take(stem_len as int) =~= stem);
        assert(all_digits(stem));
        assert(digits_val(stem) == acc);
    }
    Some(acc)
}

/// A digit step that leaves 64 bits means the whole stem does too.
proof fn overflow_means_no_gen(stem: Seq<char>, i: int, acc: u64, d: u64)
    requires
        0 <= i < stem.len(),
        all_digits(stem.take(i)),
        acc == digits_val(stem.take(i)),
        is_digit(stem[i]),
        d == stem[i] as u32 - 48,
        acc * 10 + d > u64::MAX,
    ensures
        !(all_digits(stem) && digits_val(stem) <= u64::MAX),
{
    if all_digits(stem) {
        lemma_digits_val_prefix(stem, i + 1);
        assert(stem.take(i + 1).drop_last() =~= stem.take(i));
        assert(stem.take(i + 1).last() == stem[i]);
        assert(digits_val(stem.take(i + 1)) == acc * 10 + d);
    }
}

/// The one-character string of a decimal digit.
fn digit_str(d: u64) -> (r: &'static str)
    requires
        d < 10,
    ensures
        r@.len() == 1,
        r@[0] as u32 == 48 + d,
{
    proof {
        reveal_strlit("0");
        reveal_strlit("1");
        reveal_strlit("2");
        reveal_strlit("3");
        reveal_strlit("4");
        reveal_strlit("5");
        reveal_strlit("6");
        reveal_strlit("7");
        reveal_strlit("8");
        reveal_strlit("9");
    }
    match d {
        0 => "0",
        1 => "1",
        2 => "2",
        3 => "3",
        4 => "4",
        5 => "5",
        6 => "6",
        7 => "7",
        8 => "8",
        _ => "9",
    }
}

/// Appends the decimal digits of `g`, most significant first.
fn push_digits(g: u64, out: &mut String)
    ensures
        final(out)@.len() > old(out)@.len(),
        old(out)@ == final(out)@.subrange(0, old(out)@.len() as int),
        all_digits(final(out)@.skip(old(out)@.len() as int)),
        digits_val(final(out)@.skip(old(out)@.len() as int)) == g,
    decreases g,
{
    let ghost n0 = out@.len() as int;
    if g >= 10 {
        push_digits(g / 10, out);
    }
    let ghost mid = out@;
    let d = g % 10;
    let ds = digit_str(d);
    out.append(ds);
    proof {
        assert(out@ == mid + ds@);
        assert(out@[out@.len() - 1] == ds@[0]) by {
            assert((mid + ds@)[mid.len() as int] == ds@[0]);
        }
        let stem = out@.skip(n0);
        assert(stem.last() == ds@[0]);
        if g < 10 {
            assert(stem =~= seq![out@[out@.len() - 1]]);
            assert(stem.drop_last() =~= Seq::<char>::empty());
            assert(digits_val(Seq::<char>::empty()) == 0);
            assert(digits_val(stem) == digits_val(stem.drop_last()) * 10 + (
            stem.last() as u32 - 48));
        } else {
            let stem1 = mid.skip(n0);
            assert(stem =~= stem1.push(out@[out@.len() - 1]));
            assert(stem.drop_last() =~= stem1);
            assert(digits_val(stem) == digits_val(stem1) * 10 + (stem.last() as u32 - 48));
            assert(g / 10 * 10 + g % 10 == g);
        }
        assert(old(out)@ =~= out@.subrange(0, n0));
    }
}

/// The file name of a segment: its generation number with the `.log`
/// extension, exactly the form that discovery parses back.
pub fn log_path(gen: u64) -> (r: String)
    ensures
        gen_of_name(r@) == Some(gen),
{
    let mut out = String::new();
    push_digits(gen, &mut out);
    let ghost stem = out@;
    out.append(".log");
    proof {
        reveal_strlit(".log");
        assert(stem =~= stem.skip(0));
        assert(all_digits(stem) && digits_val(stem) == gen && stem.len() >= 1);
        assert(out@ =~= stem + ".log"@);
        assert(out@.subrange(out@.len() - 4, out@.len() as int) =~= log_suffix());
        assert(out@.subrange(0, out@.len() - 4) =~= stem);
    }
    out
}

/// Lists the generation numbers of the segment files among `names`, in
/// ascending order.
///
/// Exactly the names of the form `<digits>.log` contribute, each its
/// number, however the directory listed them; other names are skipped.
pub fn sorted_gen_list(names: &Vec<String>) -> (r: Vec<u64>)
    ensures
        sorted(r@),
        r@.to_multiset() == parsed_gens(names@).to_multiset(),
{
    broadcast use vstd::seq_lib::group_to_multiset_ensures;

    let n = names.len();
    let mut out: Vec<u64> = Vec::new();
    let mut i: usize = 0;
    while i < n
        invariant
            n == names@.len(),
            i <= n,
            out@ == parsed_gens(names@.take(i as int)),
        decreases n - i,
    {
        proof {
            assert(names@.take(i + 1).drop_last() =~= names@.take(i as int));
            assert(names@.take(i + 1).last() == names@[i as int]);
        }
        match parse_gen(&names[i]) {
            Some(g) => {
                out.push(g);
                proof {
                    assert(out@ =~= parsed_gens(names@.take(i + 1)));
                }
            },
            None => {
                proof {
                    assert(out@ =~= parsed_gens(names@.take(i + 1)));
                }
            },
        }
        i = i + 1;
    }
    proof {
        assert(names@.take(n as int) =~= names@);
    }
    sort_gens(out)
}

/// Sorts generation numbers ascending, keeping every occurrence: a
/// selection sort that repeatedly moves the least remaining number over.
#[verifier::loop_isolation(false)]
fn sort_gens(v: Vec<u64>) -> (r: Vec<u64>)
    ensures
        sorted(r@),
        r@.to_multiset() == v@.to_multiset(),
{
    broadcast use vstd::seq_lib::group_to_multiset_ensures;
    broadcast use vstd::multiset::group_multiset_axioms;

    let ghost orig = v@;
    let mut rest = v;
    let mut out: Vec<u64> = Vec::new();
    while rest.len() > 0
        invariant
            out@.to_multiset().add(rest@.to_multiset()) == orig.to_multiset(),
            sorted(out@),
            forall|a: int, b: int|
                0 <= a < out@.len() && 0 <= b < rest@.len() ==> out@[a] <= rest@[b],
        decreases rest@.len(),
    {
        let mut m: usize = 0;
        let mut k: usize = 1;
        while k < rest.len()
            invariant
                rest@.len() > 0,
                m < rest@.len(),
                k <= rest@.len(),
                forall|t: int| 0 <= t < k ==> rest@[m as int] <= rest@[t],
            decreases rest@.len() - k,
        {
            if rest[k] < rest[m] {
                m = k;
            }
            k = k + 1;
        }
        let ghost rest0 = rest@;
        let ghost out0 = out@;
        let x = rest.remove(m);
        out.push(x);
        proof {
            assert(forall|t: int| 0 <= t < rest0.len() ==> x <= rest0[t]);
            assert forall|a: int, b: int|
                0 <= a < out@.len() && 0 <= b < rest@.len() implies out@[a] <= rest@[b] by {
                assert(rest@[b] == (if b < m {
                    rest0[b]
                } else {
                    rest0[b + 1]
                }));
            }
            assert(sorted(out@)) by {
                assert(forall|a: int| 0 <= a < out0.len() ==> out@[a] == out0[a]);
                assert(out@.last() == x);
            }
            assert(out@.to_multiset().add(rest@.to_multiset()) =~= orig.to_multiset()) by {
                assert(out@ == out0.push(x));
                assert(out0.push(x).to_multiset() == out0.to_multiset().insert(x));
                assert(rest@ == rest0.remove(m as int));
                assert(rest0.remove(m as int).to_multiset() == rest0.to_multiset().remove(
                    rest0[m as int],
                ));
                assert(rest0.to_multiset().contains(x)) by {
                    assert(rest0.contains(x)) by {
                        assert(rest0[m as int] == x);
                    }
                }
            }
        }
    }
    out
}

} // verus!
