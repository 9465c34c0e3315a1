//! The tokenizer scaffolding of the expression front end. It scans blank
//! space and number-shaped runs of digits and decimal points, rejects a run
//! holding two decimal points, and otherwise hands back a placeholder
//! token: SemiColon for inputs longer than four characters, End otherwise.

pub mod token;

use crate::lexer::token::Token;
use vstd::prelude::*;
use vstd::string::StrSliceExecFns;

verus! {

/// Blank space as the scanner skips it: the Unicode White_Space code
/// points, exactly what char::is_whitespace accepts.
pub open spec fn is_space_ch(c: char) -> bool {
    let u = c as u32;
    (9 <= u && u <= 13) || u == 32 || u == 0x85 || u == 0xA0 || u == 0x1680 || (0x2000 <= u && u
        <= 0x200A) || u == 0x2028 || u == 0x2029 || u == 0x202F || u == 0x205F || u == 0x3000
}

/// An ASCII decimal digit.
pub open spec fn is_digit_ch(c: char) -> bool {
    48 <= c as u32 && c as u32 <= 57
}

/// The decimal point.
pub open spec fn is_dot_ch(c: char) -> bool {
    c as u32 == 46
}

/// The characters the scanner can make progress on: on any other character
/// the scaffolding would loop in place.
pub open spec fn admitted_ch(c: char) -> bool {
    is_space_ch(c) || is_digit_ch(c) || is_dot_ch(c)
}

pub open spec fn all_admitted(s: Seq<char>) -> bool {
    forall|i: int| 0 <= i < s.len() ==> admitted_ch(#[trigger] s[i])
}

/// Two decimal points before position n with no blank space between them:
/// the shape the number scanner rejects as a second dot in one run.
pub open spec fn double_dot_before(s: Seq<char>, n: int) -> bool {
    exists|d1: int, d2: int|
        #![trigger s[d1], s[d2]]
        0 <= d1 < d2 < n && d2 < s.len() && is_dot_ch(s[d1]) && is_dot_ch(s[d2]) && (forall|k: int|
            d1 < k < d2 ==> !is_space_ch(#[trigger] s[k]))
}

/// Two decimal points anywhere in the input with no blank space between.
pub open spec fn has_double_dot(s: Seq<char>) -> bool {
    double_dot_before(s, s.len() as int)
}

/// The executable form of is_space_ch: blank space by code point.
fn is_space_char(c: char) -> (r: bool)
    ensures
        r == is_space_ch(c),
{
    let u = c as u32;
    (9 <= u && u <= 13) || u == 32 || u == 0x85 || u == 0xA0 || u == 0x1680 || (0x2000 <= u && u
        <= 0x200A) || u == 0x2028 || u == 0x2029 || u == 0x202F || u == 0x205F || u == 0x3000
}

/// The UTF-8 byte length of one character.
pub open spec fn utf8_len_ch(c: char) -> nat {
    let u = c as u32;
    if u < 0x80 {
        1
    } else if u < 0x800 {
        2
    } else if u < 0x1_0000 {
        3
    } else {
        4
    }
}

/// The UTF-8 byte length of a character sequence: what the byte length of
/// the original String is.
pub open spec fn utf8_len(s: Seq<char>) -> nat
    decreases s.len(),
{
    if s.len() == 0 {
        0
    } else {
        (utf8_len_ch(s[0]) + utf8_len(s.skip(1))) as nat
    }
}

/// One more character in the prefix adds its byte length.
proof fn lemma_utf8_take_succ(s: Seq<char>, i: int)
    requires
        0 <= i < s.len(),
    ensures
        utf8_len(s.take(i + 1)) == utf8_len(s.take(i)) + utf8_len_ch(s[i]),
    decreases i,
{
    if i == 0 {
        assert(s.take(1).skip(1) =~= Seq::<char>::empty());
        assert(s.take(0) =~= Seq::<char>::empty());
        assert(s.take(1)[0] == s[0]);
    } else {
        let t = s.skip(1);
        lemma_utf8_take_succ(t, i - 1);
        assert(s.take(i + 1).skip(1) =~= t.take(i));
        assert(s.take(i).skip(1) =~= t.take(i - 1));
        assert(t[i - 1] == s[i]);
    }
}

/// A prefix is never longer in bytes than the whole sequence.
proof fn lemma_utf8_prefix_le(s: Seq<char>, i: int)
    requires
        0 <= i <= s.len(),
    ensures
        utf8_len(s.take(i)) <= utf8_len(s),
    decreases s.len() - i,
{
    if i < s.len() {
        lemma_utf8_take_succ(s, i);
        lemma_utf8_prefix_le(s, i + 1);
    } else {
        assert(s.take(i) =~= s);
    }
}

/// A position holding no dot cannot complete a new double-dot pair.
proof fn lemma_no_dot_extends(s: Seq<char>, i: int)
    requires
        0 <= i < s.len(),
        !double_dot_before(s, i),
        !is_dot_ch(s[i]),
    ensures
        !double_dot_before(s, i + 1),
{
    if double_dot_before(s, i + 1) {
        let (d1, d2) = choose|d1: int, d2: int|
            #![trigger s[d1], s[d2]]
            0 <= d1 < d2 < i + 1 && d2 < s.len() && is_dot_ch(s[d1]) && is_dot_ch(s[d2]) && (
            forall|k: int| d1 < k < d2 ==> !is_space_ch(#[trigger] s[k]));
        if d2 == i {
            assert(false);
        } else {
            assert(double_dot_before(s, i));
            assert(false);
        }
    }
}

/// A scanned run holding at most one dot, preceded by blank space or the
/// start of the input, adds no double-dot pair.
proof fn lemma_run_extends(s: Seq<char>, start: int, i: int, dot: bool, dotpos: int)
    requires
        0 <= start <= i <= s.len(),
        !double_dot_before(s, start),
        start == 0 || is_space_ch(s[start - 1]),
        forall|k: int| start <= k < i ==> !is_space_ch(#[trigger] s[k]),
        dot ==> start <= dotpos < i && is_dot_ch(s[dotpos]) && (forall|k: int|
            start <= k < i && is_dot_ch(#[trigger] s[k]) ==> k == dotpos),
        !dot ==> (forall|k: int| start <= k < i ==> !is_dot_ch(#[trigger] s[k])),
    ensures
        !double_dot_before(s, i),
{
    if double_dot_before(s, i) {
        let (d1, d2) = choose|d1: int, d2: int|
            #![trigger s[d1], s[d2]]
            0 <= d1 < d2 < i && d2 < s.len() && is_dot_ch(s[d1]) && is_dot_ch(s[d2]) && (forall|
                k: int,
            | d1 < k < d2 ==> !is_space_ch(#[trigger] s[k]));
        if d2 < start {
            assert(double_dot_before(s, start));
            assert(false);
        } else {
            // d2 lies in the run, so the run holds a dot: d2 == dotpos.
            assert(dot);
            assert(d2 == dotpos);
            if d1 >= start {
                assert(d1 == dotpos);
                assert(false);
            } else {
                // s[start - 1] is blank space strictly between d1 and d2.
                assert(start >= 1);
                assert(d1 != start - 1);
                assert(!is_space_ch(s[start - 1]));
                assert(false);
            }
        }
    }
}

/// Scans the input for tokens. This stage is scaffolding: it checks the
/// shape of number runs, failing on a second decimal point in one run, and
/// then reports a single placeholder token chosen by the input's length.
pub fn tokenize(input: String) -> (r: Option<Vec<Token>>)
    requires
        all_admitted(input@),
    ensures
        r is None <==> has_double_dot(input@),
        r matches Some(v) ==> v@.len() == 1 && (utf8_len(input@) > 4 ==> v@[0] is SemiColon) && (
        utf8_len(input@) <= 4 ==> v@[0] is End),
{
    let s = input.as_str();
    let n = s.unicode_len();
    let mut input_chars: Vec<char> = Vec::new();
    let mut k: usize = 0;
    while k < n
        invariant
            k <= n,
            n == input@.len(),
            s@ == input@,
            input_chars@ == input@.take(k as int),
        decreases n - k,
    {
        input_chars.push(s.get_char(k));
        proof {
            assert(input@.take(k + 1 as int) =~= input@.take(k as int).push(input@[k as int]));
        }
        k += 1;
    }
    proof {
        assert(input_chars@ =~= input@);
    }

    let mut i: usize = 0;
    while i < input_chars.len()
        invariant
            all_admitted(input@),
            input_chars@ == input@,
            i <= input@.len(),
            !double_dot_before(input@, i as int),
            i == 0 || i >= input@.len() || is_space_ch(input@[i - 1]) || is_space_ch(
                input@[i as int],
            ),
        decreases input@.len() - i,
    {
        let c = input_chars[i];

        if is_space_char(c) {
            proof {
                lemma_no_dot_extends(input@, i as int);
            }
            i += 1;
        } else {
            // A digit or a dot starts a number-shaped run.
            let ghost start = i as int;
            let mut dot: bool = false;
            let mut dotpos: usize = 0;

            while i < input_chars.len()
                invariant
                    all_admitted(input@),
                    input_chars@ == input@,
                    0 <= start < input@.len(),
                    start <= i as int <= input@.len(),
                    !is_space_ch(input@[start]),
                    !double_dot_before(input@, start),
                    start == 0 || is_space_ch(input@[start - 1]),
                    forall|m: int| start <= m < i as int ==> !is_space_ch(#[trigger] input@[m]),
                    dot ==> start <= dotpos as int && (dotpos as int) < i as int && is_dot_ch(input@[dotpos as int])
                        && (forall|m: int|
                        start <= m < i as int && is_dot_ch(#[trigger] input@[m]) ==> m
                            == dotpos as int),
                    !dot ==> (forall|m: int|
                        start <= m < i as int ==> !is_dot_ch(#[trigger] input@[m])),
                ensures
                    all_admitted(input@),
                    input_chars@ == input@,
                    start < i as int <= input@.len(),
                    !double_dot_before(input@, start),
                    start == 0 || is_space_ch(input@[start - 1]),
                    forall|m: int| start <= m < i as int ==> !is_space_ch(#[trigger] input@[m]),
                    dot ==> start <= dotpos as int && (dotpos as int) < i as int && is_dot_ch(input@[dotpos as int])
                        && (forall|m: int|
                        start <= m < i as int && is_dot_ch(#[trigger] input@[m]) ==> m
                            == dotpos as int),
                    !dot ==> (forall|m: int|
                        start <= m < i as int ==> !is_dot_ch(#[trigger] input@[m])),
                    i as int == input@.len() || is_space_ch(input@[i as int]),
                decreases input@.len() - i,
            {
                let rc = input_chars[i];
                let ru = rc as u32;

                if 48 <= ru && ru <= 57 {
                    i += 1;
                } else if ru == 46 {
                    if dot {
                        proof {
                            assert(is_dot_ch(input@[dotpos as int]));
                            assert(is_dot_ch(input@[i as int]));
                            assert(forall|m: int|
                                (dotpos as int) < m && m < i as int ==> !is_space_ch(
                                    #[trigger] input@[m],
                                ));
                            assert(double_dot_before(input@, input@.len() as int));
                        }
                        return None;
                    }
                    dot = true;
                    dotpos = i;
                    i += 1;
                } else {
                    break;
                }
            }
            proof {
                lemma_run_extends(input@, start, i as int, dot, dotpos as int);
            }
        }
    }

    // The placeholder token is chosen by the input's byte length, counted
    // only as far as the threshold needs.
    let mut byte_len: usize = 0;
    let mut t: usize = 0;
    proof {
        assert(input@.take(0) =~= Seq::<char>::empty());
    }
    while t < input_chars.len() && byte_len <= 4
        invariant
            input_chars@ == input@,
            t <= input@.len(),
            byte_len == utf8_len(input@.take(t as int)),
            byte_len <= 8,
        decreases input@.len() - t,
    {
        let tc = input_chars[t];
        let tu = tc as u32;
        let char_bytes: usize = if tu < 0x80 {
            1
        } else if tu < 0x800 {
            2
        } else if tu < 0x1_0000 {
            3
        } else {
            4
        };
        proof {
            lemma_utf8_take_succ(input@, t as int);
        }
        byte_len += char_bytes;
        t += 1;
    }
    proof {
        lemma_utf8_prefix_le(input@, t as int);
        if t == input_chars.len() {
            assert(input@.take(t as int) =~= input@);
        }
    }

    if byte_len > 4 {
        let mut tokens: Vec<Token> = Vec::new();
        tokens.push(Token::SemiColon);
        Some(tokens)
    } else {
        let mut tokens: Vec<Token> = Vec::new();
        tokens.push(Token::End);
        Some(tokens)
    }
}

} // verus!
