//! Array-of-bytes patterns: IDA-style text form, scanning over byte buffers,
//! and generation of patterns from raw instruction bytes.
use vstd::prelude::*;

verus! {

broadcast use vstd::string::group_string_axioms;

// ── Matching ────────────────────────────────────────────────────────────────

/// A pattern element accepts a byte: a wildcard accepts every byte,
/// `Some(b)` accepts exactly `b`.
pub open spec fn accepts(p: Option<u8>, b: u8) -> bool {
    match p {
        Some(x) => x == b,
        None => true,
    }
}

/// `pat` matches `data` at offset `i`: the whole pattern fits and every
/// element accepts the byte under it.
pub open spec fn matches_at(pat: Seq<Option<u8>>, data: Seq<u8>, i: int) -> bool {
    &&& 0 <= i
    &&& i + pat.len() <= data.len()
    &&& forall|j: int| 0 <= j < pat.len() ==> accepts(#[trigger] pat[j], data[i + j])
}

/// Every offset at or after `start` where a non-empty `pat` matches `data`,
/// in increasing order. An empty pattern matches nowhere.
pub open spec fn match_offsets_from(pat: Seq<Option<u8>>, data: Seq<u8>, start: int) -> Seq<int>
    decreases data.len() - start,
{
    if pat.len() == 0 || start < 0 || start + pat.len() > data.len() {
        seq![]
    } else if matches_at(pat, data, start) {
        seq![start] + match_offsets_from(pat, data, start + 1)
    } else {
        match_offsets_from(pat, data, start + 1)
    }
}

/// Every offset where a non-empty `pat` matches `data`, in increasing order.
pub open spec fn match_offsets(pat: Seq<Option<u8>>, data: Seq<u8>) -> Seq<int> {
    match_offsets_from(pat, data, 0)
}

/// The first offset where a non-empty `pat` matches `data`.
pub open spec fn first_match(pat: Seq<Option<u8>>, data: Seq<u8>) -> Option<int> {
    let all = match_offsets(pat, data);
    if all.len() == 0 {
        None
    } else {
        Some(all[0])
    }
}

/// With no match in `[a, b)`, the offsets found from `a` are those found from `b`.
pub proof fn lemma_no_match_skip(pat: Seq<Option<u8>>, data: Seq<u8>, a: int, b: int)
    requires
        0 <= a <= b,
        b <= data.len() - pat.len() + 1 || b == a,
        forall|k: int| a <= k < b ==> !matches_at(pat, data, k),
    ensures
        match_offsets_from(pat, data, a) == match_offsets_from(pat, data, b),
    decreases b - a,
{
    if a < b {
        lemma_no_match_skip(pat, data, a + 1, b);
        assert(!matches_at(pat, data, a));
    }
}

/// Every offset listed from `start` is a match at or after `start`.
pub proof fn lemma_offsets_are_matches(pat: Seq<Option<u8>>, data: Seq<u8>, start: int)
    requires
        0 <= start,
    ensures
        forall|k: int|
            0 <= k < match_offsets_from(pat, data, start).len() ==> {
                &&& start <= #[trigger] match_offsets_from(pat, data, start)[k]
                &&& matches_at(pat, data, match_offsets_from(pat, data, start)[k])
            },
        forall|k: int, l: int|
            0 <= k < l < match_offsets_from(pat, data, start).len() ==> #[trigger] match_offsets_from(
                pat,
                data,
                start,
            )[k] < #[trigger] match_offsets_from(pat, data, start)[l],
    decreases data.len() - start,
{
    if pat.len() == 0 || start + pat.len() > data.len() {
    } else {
        lemma_offsets_are_matches(pat, data, start + 1);
        let rest = match_offsets_from(pat, data, start + 1);
        if matches_at(pat, data, start) {
            let all = seq![start] + rest;
            assert(match_offsets_from(pat, data, start) == all);
            assert forall|k: int| 1 <= k < all.len() implies all[k] == rest[k - 1] && start < all[k] by {}
        }
    }
}

/// Every match at or after `start` is listed.
pub proof fn lemma_matches_are_listed(pat: Seq<Option<u8>>, data: Seq<u8>, start: int, i: int)
    requires
        0 <= start <= i,
        pat.len() > 0,
        matches_at(pat, data, i),
    ensures
        match_offsets_from(pat, data, start).contains(i),
    decreases i - start,
{
    if start == i {
        assert(match_offsets_from(pat, data, start)[0] == i);
    } else {
        lemma_matches_are_listed(pat, data, start + 1, i);
        let rest = match_offsets_from(pat, data, start + 1);
        let k = choose|k: int| 0 <= k < rest.len() && rest[k] == i;
        if matches_at(pat, data, start) {
            assert((seq![start] + rest)[k + 1] == i);
        }
    }
}

// ── Text form ───────────────────────────────────────────────────────────────

/// The characters of `s`, in order.
pub fn chars_of(s: &str) -> (r: Vec<char>)
    ensures
        r@ == s@,
{
    let mut chars: Vec<char> = Vec::new();
    for c in it: s.chars()
        invariant
            it.seq() == s@,
            chars@ == s@.take(it.index()),
    {
        assert(s@.take(it.index() + 1) =~= s@.take(it.index()).push(c));
        chars.push(c);
    }
    assert(s@.take(s@.len() as int) =~= s@);
    chars
}

/// Unicode `White_Space`, the set that `char::is_whitespace` tests.
pub open spec fn is_whitespace(c: char) -> bool {
    let u = c as u32;
    ||| 0x09 <= u <= 0x0D
    ||| u == 0x20
    ||| u == 0x85
    ||| u == 0xA0
    ||| u == 0x1680
    ||| 0x2000 <= u <= 0x200A
    ||| u == 0x2028
    ||| u == 0x2029
    ||| u == 0x202F
    ||| u == 0x205F
    ||| u == 0x3000
}

/// Splitting `s` at whitespace, read left to right: the finished tokens and
/// the token still being read.
pub open spec fn split_state(s: Seq<char>) -> (Seq<Seq<char>>, Seq<char>)
    decreases s.len(),
{
    if s.len() == 0 {
        (seq![], seq![])
    } else {
        let (done, cur) = split_state(s.drop_last());
        let c = s.last();
        if is_whitespace(c) {
            if cur.len() == 0 {
                (done, cur)
            } else {
                (done.push(cur), seq![])
            }
        } else {
            (done, cur.push(c))
        }
    }
}

/// The non-empty whitespace-separated tokens of `s`, in order.
pub open spec fn tokens(s: Seq<char>) -> Seq<Seq<char>> {
    let (done, cur) = split_state(s);
    if cur.len() == 0 {
        done
    } else {
        done.push(cur)
    }
}

/// Value of a hexadecimal digit (either case).
pub open spec fn hex_digit_value(c: char) -> Option<nat> {
    let u = c as u32;
    if 0x30 <= u <= 0x39 {
        Some((u - 0x30) as nat)
    } else if 0x41 <= u <= 0x46 {
        Some((u - 0x41 + 10) as nat)
    } else if 0x61 <= u <= 0x66 {
        Some((u - 0x61 + 10) as nat)
    } else {
        None
    }
}

pub open spec fn all_hex(s: Seq<char>) -> bool {
    forall|i: int| 0 <= i < s.len() ==> #[trigger] hex_digit_value(s[i]) is Some
}

/// The number that a string of hexadecimal digits denotes.
pub open spec fn hex_value(s: Seq<char>) -> nat
    decreases s.len(),
{
    if s.len() == 0 {
        0
    } else {
        hex_value(s.drop_last()) * 16 + match hex_digit_value(s.last()) {
            Some(d) => d,
            None => 0,
        }
    }
}

/// The pattern element a token denotes: `?` or `??` is a wildcard; otherwise
/// an optional `+` and at least one hexadecimal digit whose value fits a byte.
/// `None` for any other token.
pub open spec fn token_element(tok: Seq<char>) -> Option<Option<u8>> {
    if tok == seq!['?'] || tok == seq!['?', '?'] {
        Some(None)
    } else {
        let digits = if tok.len() > 0 && tok[0] == '+' {
            tok.drop_first()
        } else {
            tok
        };
        if digits.len() > 0 && all_hex(digits) && hex_value(digits) <= 255 {
            Some(Some(hex_value(digits) as u8))
        } else {
            None
        }
    }
}

/// Every token of `s` denotes a pattern element.
pub open spec fn is_valid_pattern_text(s: Seq<char>) -> bool {
    forall|i: int| 0 <= i < tokens(s).len() ==> (#[trigger] token_element(tokens(s)[i])) is Some
}

pub open spec fn element_of_token(tok: Seq<char>) -> Option<u8> {
    match token_element(tok) {
        Some(e) => e,
        None => None,
    }
}

/// The pattern that a valid pattern text denotes, token by token.
pub open spec fn pattern_from_text(s: Seq<char>) -> Seq<Option<u8>> {
    tokens(s).map_values(|t: Seq<char>| element_of_token(t))
}

/// Upper-case hexadecimal digit for `0 <= n < 16`.
pub open spec fn hex_char(n: int) -> char {
    if n < 10 {
        (0x30 + n) as char
    } else {
        (0x41 + n - 10) as char
    }
}

/// The IDA-style token of one element: two upper-case hex digits, or `??`.
pub open spec fn element_text(p: Option<u8>) -> Seq<char> {
    match p {
        Some(v) => seq![hex_char(v as int / 16), hex_char(v as int % 16)],
        None => seq!['?', '?'],
    }
}

/// The IDA-style text of a pattern: element tokens joined by single spaces.
pub open spec fn ida_text(p: Seq<Option<u8>>) -> Seq<char>
    decreases p.len(),
{
    if p.len() == 0 {
        seq![]
    } else if p.len() == 1 {
        element_text(p[0])
    } else {
        ida_text(p.drop_last()) + seq![' '] + element_text(p.last())
    }
}

/// A prefix of hexadecimal digits never denotes more than the whole string.
pub proof fn lemma_hex_value_prefix(s: Seq<char>, i: int)
    requires
        0 <= i <= s.len(),
    ensures
        hex_value(s.take(i)) <= hex_value(s),
    decreases s.len() - i,
{
    if i == s.len() {
        assert(s.take(i) =~= s);
    } else {
        lemma_hex_value_prefix(s, i + 1);
        assert(s.take(i + 1).drop_last() =~= s.take(i));
    }
}

fn is_whitespace_char(c: char) -> (r: bool)
    ensures
        r == is_whitespace(c),
{
    let u = c as u32;
    (0x09 <= u && u <= 0x0D) || u == 0x20 || u == 0x85 || u == 0xA0 || u == 0x1680 || (0x2000
        <= u && u <= 0x200A) || u == 0x2028 || u == 0x2029 || u == 0x202F || u == 0x205F || u
        == 0x3000
}

fn hex_digit_of(c: char) -> (r: Option<u32>)
    ensures
        match r {
            Some(d) => hex_digit_value(c) == Some(d as nat) && d < 16,
            None => hex_digit_value(c) is None,
        },
{
    let u = c as u32;
    if 0x30 <= u && u <= 0x39 {
        Some(u - 0x30)
    } else if 0x41 <= u && u <= 0x46 {
        Some(u - 0x41 + 10)
    } else if 0x61 <= u && u <= 0x66 {
        Some(u - 0x61 + 10)
    } else {
        None
    }
}

/// The pattern element a token denotes, or `None` for an invalid token.
fn parse_token(tok: &Vec<char>) -> (r: Option<Option<u8>>)
    ensures
        r == token_element(tok@),
{
    let n = tok.len();
    if (n == 1 && tok[0] == '?') || (n == 2 && tok[0] == '?' && tok[1] == '?') {
        proof {
            if n == 1 {
                assert(tok@ =~= seq!['?']);
            } else {
                assert(tok@ =~= seq!['?', '?']);
            }
        }
        return Some(None);
    }
    assert(tok@ != seq!['?'] && tok@ != seq!['?', '?']) by {
        if tok@ == seq!['?'] {
            assert(tok@[0] == '?');
        }
        if tok@ == seq!['?', '?'] {
            assert(tok@[0] == '?' && tok@[1] == '?');
        }
    }
    let start: usize = if n > 0 && tok[0] == '+' {
        1
    } else {
        0
    };
    let ghost digits = if tok@.len() > 0 && tok@[0] == '+' {
        tok@.drop_first()
    } else {
        tok@
    };
    assert(digits.len() == n - start);
    assert(forall|k: int| 0 <= k < digits.len() ==> digits[k] == tok@[start + k]);
    if start >= n {
        return None;
    }
    let mut v: u32 = 0;
    let mut j: usize = start;
    while j < n
        invariant
            n == tok@.len(),
            start <= j <= n,
            start < n,
            digits.len() == n - start,
            forall|k: int| 0 <= k < digits.len() ==> digits[k] == tok@[start + k],
            tok@ != seq!['?'] && tok@ != seq!['?', '?'],
            digits == (if tok@.len() > 0 && tok@[0] == '+' {
                tok@.drop_first()
            } else {
                tok@
            }),
            v <= 255,
            v == hex_value(digits.take(j - start)),
            all_hex(digits.take(j - start)),
        decreases n - j,
    {
        let ghost pre = digits.take(j - start);
        let ghost next = digits.take(j - start + 1);
        assert(next.drop_last() =~= pre);
        assert(next.last() == tok@[j as int]);
        match hex_digit_of(tok[j]) {
            None => {
                assert(!all_hex(digits)) by {
                    assert(hex_digit_value(digits[j - start]) is None);
                }
                return None;
            },
            Some(d) => {
                let nv = v * 16 + d;
                if nv > 255 {
                    proof {
                        if all_hex(digits) {
                            lemma_hex_value_prefix(digits, j - start + 1);
                        }
                    }
                    return None;
                }
                assert forall|k: int| 0 <= k < next.len() implies #[trigger] hex_digit_value(
                    next[k],
                ) is Some by {
                    if k < pre.len() {
                        assert(next[k] == pre[k]);
                    }
                }
                v = nv;
            },
        }
        j = j + 1;
    }
    assert(digits.take(n - start) =~= digits);
    Some(Some(v as u8))
}

/// Appends the element of `tok` to `out` while every token so far was valid.
fn push_token(out: &mut Vec<Option<u8>>, ok: bool, tok: &Vec<char>) -> (ok2: bool)
    ensures
        ok2 == (ok && token_element(tok@) is Some),
        ok2 ==> final(out)@ == old(out)@.push(element_of_token(tok@)),
{
    match parse_token(tok) {
        Some(e) => {
            if ok {
                out.push(e);
            }
            ok
        },
        None => false,
    }
}

fn hex_digit_str(n: u8) -> (s: &'static str)
    requires
        n < 16,
    ensures
        s@ == seq![hex_char(n as int)],
{
    match n {
        0 => { proof { reveal_strlit("0"); } "0" },
        1 => { proof { reveal_strlit("1"); } "1" },
        2 => { proof { reveal_strlit("2"); } "2" },
        3 => { proof { reveal_strlit("3"); } "3" },
        4 => { proof { reveal_strlit("4"); } "4" },
        5 => { proof { reveal_strlit("5"); } "5" },
        6 => { proof { reveal_strlit("6"); } "6" },
        7 => { proof { reveal_strlit("7"); } "7" },
        8 => { proof { reveal_strlit("8"); } "8" },
        9 => { proof { reveal_strlit("9"); } "9" },
        10 => { proof { reveal_strlit("A"); } "A" },
        11 => { proof { reveal_strlit("B"); } "B" },
        12 => { proof { reveal_strlit("C"); } "C" },
        13 => { proof { reveal_strlit("D"); } "D" },
        14 => { proof { reveal_strlit("E"); } "E" },
        _ => { proof { reveal_strlit("F"); } "F" },
    }
}

/// Reading characters that are not whitespace only extends the current token.
pub proof fn lemma_split_append_word(x: Seq<char>, t: Seq<char>)
    requires
        forall|i: int| 0 <= i < t.len() ==> !is_whitespace(#[trigger] t[i]),
    ensures
        split_state(x + t) == (split_state(x).0, split_state(x).1 + t),
    decreases t.len(),
{
    if t.len() == 0 {
        assert(x + t =~= x);
        assert(split_state(x).1 + t =~= split_state(x).1);
    } else {
        let t0 = t.drop_last();
        lemma_split_append_word(x, t0);
        assert((x + t).drop_last() =~= x + t0);
        assert((x + t).last() == t.last());
        assert(split_state(x).1 + t0 + seq![t.last()] =~= split_state(x).1 + t);
        assert(!is_whitespace(t[t.len() - 1]));
    }
}

pub proof fn lemma_hex_char_value(n: int)
    requires
        0 <= n < 16,
    ensures
        hex_digit_value(hex_char(n)) == Some(n as nat),
        hex_char(n) != '?',
        hex_char(n) != '+',
        !is_whitespace(hex_char(n)),
{
    if n < 10 {
        assert(((0x30 + n) as char) as u32 == 0x30 + n);
    } else {
        assert(((0x41 + n - 10) as char) as u32 == 0x41 + n - 10);
    }
}

/// The token written for an element denotes that element.
pub proof fn lemma_element_text_roundtrip(e: Option<u8>)
    ensures
        token_element(element_text(e)) == Some(e),
        element_text(e).len() == 2,
        forall|i: int| 0 <= i < 2 ==> !is_whitespace(#[trigger] element_text(e)[i]),
{
    match e {
        Some(v) => {
            let hi = v as int / 16;
            let lo = v as int % 16;
            lemma_hex_char_value(hi);
            lemma_hex_char_value(lo);
            let tok = element_text(e);
            assert(tok != seq!['?']);
            assert(tok != seq!['?', '?']) by {
                assert(tok[0] != '?');
            }
            assert(tok.drop_last() =~= seq![hex_char(hi)]);
            assert(seq![hex_char(hi)].drop_last() =~= Seq::<char>::empty());
            assert(hex_value(Seq::<char>::empty()) == 0);
            assert(seq![hex_char(hi)].last() == hex_char(hi));
            assert(hex_value(seq![hex_char(hi)]) == hi);
            assert(hex_value(tok) == hi * 16 + lo);
            assert(all_hex(tok)) by {
                assert forall|i: int| 0 <= i < tok.len() implies #[trigger] hex_digit_value(
                    tok[i],
                ) is Some by {
                    if i == 0 {
                    } else {
                    }
                }
            }
        },
        None => {
            assert('?' as u32 == 0x3F);
        },
    }
}

/// The text of a non-empty pattern, read up to its end, has finished the
/// tokens of all but the last element and is reading the last one.
proof fn lemma_split_ida_text(p: Seq<Option<u8>>)
    requires
        p.len() >= 1,
    ensures
        split_state(ida_text(p)) == (
            p.drop_last().map_values(|e: Option<u8>| element_text(e)),
            element_text(p.last()),
        ),
    decreases p.len(),
{
    lemma_element_text_roundtrip(p.last());
    if p.len() == 1 {
        assert(ida_text(p) == element_text(p[0]));
        lemma_split_append_word(Seq::<char>::empty(), element_text(p[0]));
        assert(Seq::<char>::empty() + element_text(p[0]) =~= element_text(p[0]));
        assert(Seq::<char>::empty() + element_text(p.last()) =~= element_text(p.last()));
        assert(p.drop_last().map_values(|e: Option<u8>| element_text(e)) =~= Seq::<
            Seq<char>,
        >::empty());
    } else {
        let q = p.drop_last();
        lemma_split_ida_text(q);
        let x = ida_text(q);
        let xs = x + seq![' '];
        assert(xs.drop_last() =~= x);
        assert(is_whitespace(xs.last())) by {
            assert(xs.last() == ' ');
            assert(' ' as u32 == 0x20);
        }
        lemma_element_text_roundtrip(q.last());
        assert(split_state(xs) == (
            q.drop_last().map_values(|e: Option<u8>| element_text(e)).push(element_text(q.last())),
            Seq::<char>::empty(),
        ));
        assert(q.drop_last().map_values(|e: Option<u8>| element_text(e)).push(
            element_text(q.last()),
        ) =~= q.map_values(|e: Option<u8>| element_text(e)));
        lemma_split_append_word(xs, element_text(p.last()));
        assert(ida_text(p) == xs + element_text(p.last()));
        assert(Seq::<char>::empty() + element_text(p.last()) =~= element_text(p.last()));
    }
}

/// Law: reading back the IDA-style text of any pattern gives the pattern.
pub proof fn lemma_parse_ida_text(p: Seq<Option<u8>>)
    ensures
        is_valid_pattern_text(ida_text(p)),
        pattern_from_text(ida_text(p)) == p,
{
    let toks = tokens(ida_text(p));
    if p.len() == 0 {
        assert(ida_text(p) =~= Seq::<char>::empty());
        assert(toks =~= Seq::<Seq<char>>::empty());
        assert(pattern_from_text(ida_text(p)) =~= p);
    } else {
        lemma_split_ida_text(p);
        lemma_element_text_roundtrip(p.last());
        assert(toks =~= p.map_values(|e: Option<u8>| element_text(e))) by {
            assert(element_text(p.last()).len() == 2);
        }
        assert forall|i: int| 0 <= i < toks.len() implies (#[trigger] token_element(
            toks[i],
        )) is Some by {
            lemma_element_text_roundtrip(p[i]);
        }
        assert forall|i: int| 0 <= i < p.len() implies #[trigger] pattern_from_text(
            ida_text(p),
        )[i] == p[i] by {
            lemma_element_text_roundtrip(p[i]);
        }
        assert(pattern_from_text(ida_text(p)) =~= p);
    }
}

/// An upper-case hexadecimal digit `0-9` or `A-F`.
pub open spec fn is_upper_hex_digit(c: char) -> bool {
    let u = c as u32;
    (0x30 <= u <= 0x39) || (0x41 <= u <= 0x46)
}

/// A token in printed form: `??` or two upper-case hexadecimal digits.
pub open spec fn is_canonical_token(t: Seq<char>) -> bool {
    ||| t == seq!['?', '?']
    ||| (t.len() == 2 && is_upper_hex_digit(t[0]) && is_upper_hex_digit(t[1]))
}

/// Text in printed form: empty, or printed-form tokens joined by single
/// spaces, with no other whitespace.
pub open spec fn is_canonical_text(s: Seq<char>) -> bool
    decreases s.len(),
{
    if s.len() == 0 {
        true
    } else if s.len() == 2 {
        is_canonical_token(s)
    } else {
        &&& s.len() >= 5
        &&& s[s.len() - 3] == ' '
        &&& is_canonical_token(s.subrange(s.len() - 2, s.len() as int))
        &&& is_canonical_text(s.take(s.len() - 3))
    }
}

/// The pattern whose printed form a canonical text is, token by token.
pub open spec fn canonical_pattern(s: Seq<char>) -> Seq<Option<u8>>
    decreases s.len(),
{
    if s.len() < 2 {
        seq![]
    } else if s.len() == 2 {
        seq![element_of_token(s)]
    } else if s.len() >= 5 {
        canonical_pattern(s.take(s.len() - 3)).push(
            element_of_token(s.subrange(s.len() - 2, s.len() as int)),
        )
    } else {
        seq![]
    }
}

proof fn lemma_upper_hex_digit(c: char)
    requires
        is_upper_hex_digit(c),
    ensures
        hex_digit_value(c) is Some,
        hex_char(hex_digit_value(c)->0 as int) == c,
        c != '?',
        c != '+',
{
    let u = c as u32;
    if u <= 0x39 {
        assert(((0x30 + (u - 0x30)) as char) == c);
    } else {
        assert(((0x41 + (u - 0x41 + 10) - 10) as char) == c);
    }
}

/// A printed-form token is the printed form of the element it denotes.
proof fn lemma_canonical_token(t: Seq<char>)
    requires
        is_canonical_token(t),
    ensures
        token_element(t) is Some,
        element_text(element_of_token(t)) == t,
{
    if t == seq!['?', '?'] {
    } else {
        lemma_upper_hex_digit(t[0]);
        lemma_upper_hex_digit(t[1]);
        let d0 = hex_digit_value(t[0])->0;
        let d1 = hex_digit_value(t[1])->0;
        assert(t != seq!['?']);
        assert(t != seq!['?', '?']) by {
            assert(t[0] != '?');
        }
        assert(t.drop_last() =~= seq![t[0]]);
        assert(seq![t[0]].drop_last() =~= Seq::<char>::empty());
        assert(hex_value(Seq::<char>::empty()) == 0);
        assert(seq![t[0]].last() == t[0]);
        assert(hex_value(seq![t[0]]) == d0);
        assert(hex_value(t) == d0 * 16 + d1);
        assert(all_hex(t)) by {
            assert forall|i: int| 0 <= i < t.len() implies #[trigger] hex_digit_value(t[i]) is Some by {
                if i == 0 {
                } else {
                }
            }
        }
        let v = (d0 * 16 + d1) as u8;
        assert(element_of_token(t) == Some(v));
        assert(v as int / 16 == d0 && v as int % 16 == d1);
        assert(element_text(Some(v)) =~= t);
    }
}

proof fn lemma_canonical_is_printed(s: Seq<char>)
    requires
        is_canonical_text(s),
    ensures
        ida_text(canonical_pattern(s)) == s,
        s.len() > 0 ==> canonical_pattern(s).len() > 0,
    decreases s.len(),
{
    if s.len() == 0 {
        assert(ida_text(canonical_pattern(s)) =~= s);
    } else if s.len() == 2 {
        lemma_canonical_token(s);
        let p = canonical_pattern(s);
        assert(p.len() == 1);
        assert(ida_text(p) == element_text(p[0]));
    } else {
        let head = s.take(s.len() - 3);
        let last = s.subrange(s.len() - 2, s.len() as int);
        lemma_canonical_is_printed(head);
        lemma_canonical_token(last);
        let q = canonical_pattern(head);
        let p = q.push(element_of_token(last));
        assert(p == canonical_pattern(s));
        assert(p.drop_last() =~= q);
        assert(p.last() == element_of_token(last));
        assert(ida_text(p) == ida_text(q) + seq![' '] + element_text(element_of_token(last)));
        assert(ida_text(p) =~= s);
    }
}

/// Law: parsing text in printed form and printing the result gives the text
/// back.
pub proof fn lemma_print_canonical_text(s: Seq<char>)
    requires
        is_canonical_text(s),
    ensures
        is_valid_pattern_text(s),
        ida_text(pattern_from_text(s)) == s,
{
    lemma_canonical_is_printed(s);
    lemma_parse_ida_text(canonical_pattern(s));
}

// ── Generation ──────────────────────────────────────────────────────────────

/// ModRM byte with mod = 00 and rm = 101: a RIP-relative 32-bit displacement follows.
pub open spec fn is_rip_relative_modrm(modrm: u8) -> bool {
    modrm & 0xC7 == 0x05
}

/// MOV r/m (0x89, 0x8B) and LEA (0x8D).
pub open spec fn is_mov_lea_opcode(op: u8) -> bool {
    op == 0x8B || op == 0x8D || op == 0x89
}

/// Two-byte (0F-escaped) opcodes that take a ModRM byte.
pub open spec fn is_modrm_opcode_0f(op: u8) -> bool {
    ||| 0x10 <= op <= 0x17
    ||| 0x28 <= op <= 0x2F
    ||| 0x40 <= op <= 0x7F
    ||| op == 0xAF
    ||| op == 0xB6
    ||| op == 0xB7
    ||| op == 0xBE
    ||| op == 0xBF
}

pub open spec fn four_wildcards() -> Seq<Option<u8>> {
    seq![None, None, None, None]
}

/// The elements emitted for the instruction bytes at `i`, and how many bytes
/// they cover: a near call/jmp, a REX MOV/LEA with RIP-relative ModRM, a
/// prefixed SSE op with RIP-relative ModRM, or a plain 0F op with RIP-relative
/// ModRM keeps its opcode bytes and wildcards its 4-byte displacement; any
/// other byte is kept as it is.
pub open spec fn generate_step(b: Seq<u8>, i: int) -> (Seq<Option<u8>>, int) {
    let x = b[i];
    if (x == 0xE8 || x == 0xE9) && i + 5 <= b.len() {
        (seq![Some(x)] + four_wildcards(), 5)
    } else if 0x40 <= x <= 0x4F && i + 7 <= b.len() && is_mov_lea_opcode(b[i + 1])
        && is_rip_relative_modrm(b[i + 2]) {
        (seq![Some(x), Some(b[i + 1]), Some(b[i + 2])] + four_wildcards(), 7)
    } else if (x == 0xF3 || x == 0xF2 || x == 0x66) && i + 8 <= b.len() && b[i + 1] == 0x0F
        && is_rip_relative_modrm(b[i + 3]) {
        (seq![Some(x), Some(0x0Fu8), Some(b[i + 2]), Some(b[i + 3])] + four_wildcards(), 8)
    } else if x == 0x0F && i + 7 <= b.len() && is_modrm_opcode_0f(b[i + 1])
        && is_rip_relative_modrm(b[i + 2]) {
        (seq![Some(x), Some(b[i + 1]), Some(b[i + 2])] + four_wildcards(), 7)
    } else {
        (seq![Some(x)], 1)
    }
}

/// The pattern generated from the bytes at and after `i`.
pub open spec fn generated_from(b: Seq<u8>, i: int) -> Seq<Option<u8>>
    decreases b.len() - i,
{
    if i < 0 || i >= b.len() {
        seq![]
    } else {
        let (elems, n) = generate_step(b, i);
        elems + generated_from(b, i + n)
    }
}

/// The pattern generated from `b`.
pub open spec fn generated(b: Seq<u8>) -> Seq<Option<u8>> {
    generated_from(b, 0)
}

/// One generation step covers at least one byte and at most what is left,
/// with one element per byte covered, each accepting its byte.
pub proof fn lemma_generate_step(b: Seq<u8>, i: int)
    requires
        0 <= i < b.len(),
    ensures
        generate_step(b, i).1 >= 1,
        i + generate_step(b, i).1 <= b.len(),
        generate_step(b, i).0.len() == generate_step(b, i).1,
        forall|k: int|
            0 <= k < generate_step(b, i).1 ==> accepts(
                #[trigger] generate_step(b, i).0[k],
                b[i + k],
            ),
{
}

proof fn lemma_generated_from(b: Seq<u8>, i: int)
    requires
        0 <= i <= b.len(),
    ensures
        generated_from(b, i).len() == b.len() - i,
        forall|k: int|
            0 <= k < b.len() - i ==> accepts(#[trigger] generated_from(b, i)[k], b[i + k]),
    decreases b.len() - i,
{
    if i < b.len() {
        lemma_generate_step(b, i);
        let (elems, n) = generate_step(b, i);
        lemma_generated_from(b, i + n);
        let rest = generated_from(b, i + n);
        assert forall|k: int| 0 <= k < b.len() - i implies accepts(
            #[trigger] generated_from(b, i)[k],
            b[i + k],
        ) by {
            if k < n {
                assert(generated_from(b, i)[k] == elems[k]);
            } else {
                assert(generated_from(b, i)[k] == rest[k - n]);
            }
        }
    }
}

/// Law: a generated pattern has one element per source byte, and every
/// element accepts the byte it came from, so the pattern matches its source
/// at offset 0 (and that is the first match when the source is non-empty).
pub proof fn lemma_generated_matches_source(b: Seq<u8>)
    ensures
        generated(b).len() == b.len(),
        forall|k: int| 0 <= k < b.len() ==> accepts(#[trigger] generated(b)[k], b[k]),
        matches_at(generated(b), b, 0),
        b.len() > 0 ==> first_match(generated(b), b) == Some(0int),
{
    lemma_generated_from(b, 0);
    assert forall|j: int| 0 <= j < generated(b).len() implies accepts(
        #[trigger] generated(b)[j],
        b[0 + j],
    ) by {
        assert(accepts(generated(b)[j], b[j]));
    }
}

/// `i` is where an instruction starts when generating from `j` on: `j`
/// itself, or a start reached by stepping over whole instructions from `j`.
pub open spec fn starts_from(b: Seq<u8>, j: int, i: int) -> bool
    decreases b.len() - j,
{
    if j == i {
        true
    } else if 0 <= j < i && j < b.len() {
        proof {
            lemma_generate_step(b, j);
        }
        starts_from(b, j + generate_step(b, j).1, i)
    } else {
        false
    }
}

/// The pattern generated from a start `i` reached from `j` is the tail, from
/// `i`, of the pattern generated from `j`.
proof fn lemma_generated_tail(b: Seq<u8>, j: int, i: int)
    requires
        0 <= j <= i <= b.len(),
        starts_from(b, j, i),
    ensures
        generated_from(b, j).skip(i - j) == generated_from(b, i),
    decreases b.len() - j,
{
    if j < i {
        lemma_generate_step(b, j);
        let (e, n) = generate_step(b, j);
        lemma_generate_step(b, j);
        assert(j + n <= i) by {
            if j + n > i {
                // stepping past `i` never comes back to it
                lemma_starts_from_past(b, j + n, i);
            }
        }
        lemma_generated_tail(b, j + n, i);
        lemma_generated_from(b, j + n);
        assert(generated_from(b, j) == e + generated_from(b, j + n));
        assert(generated_from(b, j).skip(i - j) =~= generated_from(b, j + n).skip(i - (j + n)));
    } else {
        assert(generated_from(b, j).skip(0) =~= generated_from(b, j));
    }
}

proof fn lemma_starts_from_past(b: Seq<u8>, j: int, i: int)
    requires
        j > i,
    ensures
        !starts_from(b, j, i),
{
}

/// Starts stay reachable: the instruction after a reachable start starts
/// there too.
proof fn lemma_starts_from_next(b: Seq<u8>, j: int, i: int)
    requires
        0 <= j <= i < b.len(),
        starts_from(b, j, i),
    ensures
        starts_from(b, j, i + generate_step(b, i).1),
    decreases b.len() - j,
{
    lemma_generate_step(b, i);
    if j < i {
        lemma_generate_step(b, j);
        let n = generate_step(b, j).1;
        if j + n > i {
            lemma_starts_from_past(b, j + n, i);
        }
        lemma_starts_from_next(b, j + n, i);
    } else {
        let n = generate_step(b, i).1;
        assert(starts_from(b, i + n, i + n));
    }
}

/// At an instruction start `i`, the generated pattern holds the elements of
/// the instruction there, and the next instruction starts right after it.
proof fn lemma_generated_at_start(b: Seq<u8>, i: int)
    requires
        0 <= i < b.len(),
        starts_from(b, 0, i),
    ensures
        generated(b).subrange(i, i + generate_step(b, i).1) == generate_step(b, i).0,
        starts_from(b, 0, i + generate_step(b, i).1),
{
    lemma_generated_tail(b, 0, i);
    lemma_generated_from(b, 0);
    lemma_generated_from(b, i);
    lemma_generate_step(b, i);
    let (e, n) = generate_step(b, i);
    lemma_generated_from(b, i + n);
    assert(generated_from(b, i) == e + generated_from(b, i + n));
    assert(generated(b).skip(i) == generated_from(b, i));
    assert(generated(b).subrange(i, i + n) =~= generated_from(b, i).take(n));
    assert(generated_from(b, i).take(n) =~= e);
    lemma_starts_from_next(b, 0, i);
}

/// Law: a near call (E8) or jmp (E9) with its 4 displacement bytes present,
/// at an instruction start, keeps its opcode and wildcards the displacement.
pub proof fn lemma_generate_wildcards_call_jmp(b: Seq<u8>, i: int)
    requires
        starts_from(b, 0, i),
        0 <= i,
        i + 5 <= b.len(),
        b[i] == 0xE8 || b[i] == 0xE9,
    ensures
        generated(b).subrange(i, i + 5) == seq![Some(b[i]), None::<u8>, None::<u8>, None::<u8>, None::<u8>],
        starts_from(b, 0, i + 5),
{
    lemma_generated_at_start(b, i);
    assert(generate_step(b, i).1 == 5);
}

/// Law: a REX-prefixed MOV store (0x89), MOV load (0x8B) or LEA (0x8D) with a
/// RIP-relative ModRM (mod = 00, rm = 101), at an instruction start with all
/// 7 bytes present, keeps its three opcode bytes and wildcards exactly the 4
/// displacement bytes that follow.
pub proof fn lemma_generate_wildcards_rip_mov_lea(b: Seq<u8>, i: int)
    requires
        starts_from(b, 0, i),
        0 <= i,
        i + 7 <= b.len(),
        0x40 <= b[i] <= 0x4F,
        b[i + 1] == 0x89 || b[i + 1] == 0x8B || b[i + 1] == 0x8D,
        b[i + 2] & 0xC7 == 0x05,
    ensures
        generated(b).subrange(i, i + 7) == seq![
            Some(b[i]),
            Some(b[i + 1]),
            Some(b[i + 2]),
            None::<u8>,
            None::<u8>,
            None::<u8>,
            None::<u8>,
        ],
        starts_from(b, 0, i + 7),
{
    lemma_generated_at_start(b, i);
    assert(generate_step(b, i).1 == 7);
}

/// Law: an SSE scalar op with a mandatory prefix (F3, F2, 66), the 0F escape
/// and a RIP-relative ModRM, at an instruction start with all 8 bytes present,
/// keeps its four opcode bytes and wildcards the 4 displacement bytes.
pub proof fn lemma_generate_wildcards_prefixed_sse(b: Seq<u8>, i: int)
    requires
        starts_from(b, 0, i),
        0 <= i,
        i + 8 <= b.len(),
        b[i] == 0xF3 || b[i] == 0xF2 || b[i] == 0x66,
        b[i + 1] == 0x0F,
        b[i + 3] & 0xC7 == 0x05,
    ensures
        generated(b).subrange(i, i + 8) == seq![
            Some(b[i]),
            Some(0x0Fu8),
            Some(b[i + 2]),
            Some(b[i + 3]),
            None::<u8>,
            None::<u8>,
            None::<u8>,
            None::<u8>,
        ],
        starts_from(b, 0, i + 8),
{
    lemma_generated_at_start(b, i);
    assert(generate_step(b, i).1 == 8);
}

/// Law: a two-byte 0F op that takes a ModRM (0F 10-17, 28-2F, 40-7F, AF, B6,
/// B7, BE, BF) with a RIP-relative ModRM, at an instruction start with all 7
/// bytes present, keeps its three opcode bytes and wildcards the displacement.
pub proof fn lemma_generate_wildcards_0f_op(b: Seq<u8>, i: int)
    requires
        starts_from(b, 0, i),
        0 <= i,
        i + 7 <= b.len(),
        b[i] == 0x0F,
        ({
            let op = b[i + 1];
            ||| 0x10 <= op <= 0x17
            ||| 0x28 <= op <= 0x2F
            ||| 0x40 <= op <= 0x7F
            ||| op == 0xAF || op == 0xB6 || op == 0xB7 || op == 0xBE || op == 0xBF
        }),
        b[i + 2] & 0xC7 == 0x05,
    ensures
        generated(b).subrange(i, i + 7) == seq![
            Some(0x0Fu8),
            Some(b[i + 1]),
            Some(b[i + 2]),
            None::<u8>,
            None::<u8>,
            None::<u8>,
            None::<u8>,
        ],
        starts_from(b, 0, i + 7),
{
    lemma_generated_at_start(b, i);
    assert(generate_step(b, i).1 == 7);
}

/// Law: any other byte at an instruction start is kept as it is, and the next
/// instruction starts right after it.
pub proof fn lemma_generate_keeps_other_bytes(b: Seq<u8>, i: int)
    requires
        starts_from(b, 0, i),
        0 <= i < b.len(),
        !((b[i] == 0xE8 || b[i] == 0xE9) && i + 5 <= b.len()),
        !(0x40 <= b[i] <= 0x4F && i + 7 <= b.len() && (b[i + 1] == 0x89 || b[i + 1] == 0x8B
            || b[i + 1] == 0x8D) && b[i + 2] & 0xC7 == 0x05),
        !((b[i] == 0xF3 || b[i] == 0xF2 || b[i] == 0x66) && i + 8 <= b.len() && b[i + 1] == 0x0F
            && b[i + 3] & 0xC7 == 0x05),
        !(b[i] == 0x0F && i + 7 <= b.len() && ({
            let op = b[i + 1];
            ||| 0x10 <= op <= 0x17
            ||| 0x28 <= op <= 0x2F
            ||| 0x40 <= op <= 0x7F
            ||| op == 0xAF || op == 0xB6 || op == 0xB7 || op == 0xBE || op == 0xBF
        }) && b[i + 2] & 0xC7 == 0x05),
    ensures
        generated(b)[i] == Some(b[i]),
        starts_from(b, 0, i + 1),
{
    lemma_generated_at_start(b, i);
    assert(generate_step(b, i).1 == 1);
    lemma_generated_from(b, 0);
    assert(generated(b).subrange(i, i + 1)[0] == generated(b)[i]);
}

/// The elements and width of the instruction bytes at `i`.
fn instruction_elements(bytes: &[u8], i: usize) -> (r: (Vec<Option<u8>>, usize))
    requires
        i < bytes@.len(),
    ensures
        r.0@ == generate_step(bytes@, i as int).0,
        r.1 == generate_step(bytes@, i as int).1,
{
    let n = bytes.len();
    let left = n - i;
    let b = bytes[i];
    let mut v: Vec<Option<u8>> = Vec::new();
    if (b == 0xE8 || b == 0xE9) && left >= 5 {
        v.push(Some(b));
        v.push(None);
        v.push(None);
        v.push(None);
        v.push(None);
        assert(v@ =~= generate_step(bytes@, i as int).0);
        return (v, 5);
    }
    if 0x40 <= b && b <= 0x4F && left >= 7 {
        let op = bytes[i + 1];
        let modrm = bytes[i + 2];
        if (op == 0x8B || op == 0x8D || op == 0x89) && (modrm & 0xC7 == 0x05) {
            v.push(Some(b));
            v.push(Some(op));
            v.push(Some(modrm));
            v.push(None);
            v.push(None);
            v.push(None);
            v.push(None);
            assert(v@ =~= generate_step(bytes@, i as int).0);
            return (v, 7);
        }
    }
    if (b == 0xF3 || b == 0xF2 || b == 0x66) && left >= 8 && bytes[i + 1] == 0x0F && (bytes[i
        + 3] & 0xC7 == 0x05) {
        v.push(Some(b));
        v.push(Some(0x0F));
        v.push(Some(bytes[i + 2]));
        v.push(Some(bytes[i + 3]));
        v.push(None);
        v.push(None);
        v.push(None);
        v.push(None);
        assert(v@ =~= generate_step(bytes@, i as int).0);
        return (v, 8);
    }
    if b == 0x0F && left >= 7 {
        let op = bytes[i + 1];
        let modrm = bytes[i + 2];
        let has_modrm = (0x10 <= op && op <= 0x17) || (0x28 <= op && op <= 0x2F) || (0x40 <= op
            && op <= 0x7F) || op == 0xAF || op == 0xB6 || op == 0xB7 || op == 0xBE || op == 0xBF;
        if has_modrm && (modrm & 0xC7 == 0x05) {
            v.push(Some(b));
            v.push(Some(op));
            v.push(Some(modrm));
            v.push(None);
            v.push(None);
            v.push(None);
            v.push(None);
            assert(v@ =~= generate_step(bytes@, i as int).0);
            return (v, 7);
        }
    }
    v.push(Some(b));
    assert(v@ =~= generate_step(bytes@, i as int).0);
    (v, 1)
}

// ── The pattern type ────────────────────────────────────────────────────────

/// An AOB (array-of-bytes) pattern. `None` = wildcard byte (`??`), `Some(b)` = exact match.
pub struct Pattern(pub Vec<Option<u8>>);

impl View for Pattern {
    type V = Seq<Option<u8>>;

    open spec fn view(&self) -> Seq<Option<u8>> {
        self.0@
    }
}

impl Pattern {
    /// Parse an IDA-style hex string, or `None` when a token is neither a
    /// wildcard (`?`, `??`) nor a hexadecimal byte.
    pub fn try_parse(s: &str) -> (r: Option<Pattern>)
        ensures
            r is Some <==> is_valid_pattern_text(s@),
            r matches Some(p) ==> p@ == pattern_from_text(s@),
    {
        let mut out: Vec<Option<u8>> = Vec::new();
        let mut cur: Vec<char> = Vec::new();
        let mut ok = true;
        for c in it: s.chars()
            invariant
                it.seq() == s@,
                split_state(s@.take(it.index())).1 == cur@,
                ok == (forall|i: int|
                    0 <= i < split_state(s@.take(it.index())).0.len() ==> (#[trigger] token_element(
                        split_state(s@.take(it.index())).0[i],
                    )) is Some),
                ok ==> out@ == split_state(s@.take(it.index())).0.map_values(
                    |t: Seq<char>| element_of_token(t),
                ),
        {
            let ghost idx = it.index();
            let ghost before = split_state(s@.take(idx));
            assert(s@.take(idx + 1).drop_last() =~= s@.take(idx));
            assert(s@.take(idx + 1).last() == c);
            if is_whitespace_char(c) {
                if cur.len() > 0 {
                    let ghost old_out = out@;
                    ok = push_token(&mut out, ok, &cur);
                    proof {
                        let done2 = before.0.push(cur@);
                        assert(split_state(s@.take(idx + 1)).0 == done2);
                        if ok {
                            assert(done2.map_values(|t: Seq<char>| element_of_token(t))
                                =~= old_out.push(element_of_token(cur@)));
                        }
                        assert(ok == (forall|i: int|
                            0 <= i < done2.len() ==> (#[trigger] token_element(done2[i])) is Some))
                            by {
                            if forall|i: int|
                                0 <= i < done2.len() ==> (#[trigger] token_element(
                                    done2[i],
                                )) is Some {
                                assert(token_element(done2[before.0.len() as int]) is Some);
                                assert forall|i: int|
                                    0 <= i < before.0.len() implies (#[trigger] token_element(
                                        before.0[i],
                                    )) is Some by {
                                    assert(done2[i] == before.0[i]);
                                }
                            }
                        }
                    }
                    cur = Vec::new();
                }
            } else {
                cur.push(c);
            }
        }
        let ghost all = split_state(s@);
        assert(s@.take(s@.len() as int) =~= s@);
        if cur.len() > 0 {
            let ghost old_out = out@;
            ok = push_token(&mut out, ok, &cur);
            proof {
                let done2 = all.0.push(cur@);
                assert(tokens(s@) == done2);
                if ok {
                    assert(done2.map_values(|t: Seq<char>| element_of_token(t)) =~= old_out.push(
                        element_of_token(cur@),
                    ));
                }
                if forall|i: int| 0 <= i < done2.len() ==> (#[trigger] token_element(done2[i])) is Some {
                    assert(token_element(done2[all.0.len() as int]) is Some);
                    assert forall|i: int|
                        0 <= i < all.0.len() implies (#[trigger] token_element(all.0[i])) is Some by {
                        assert(done2[i] == all.0[i]);
                    }
                }
            }
        }
        if ok {
            Some(Pattern(out))
        } else {
            None
        }
    }

    /// Parse an IDA-style hex string: `"48 8B 05 ?? ?? ?? ?? 48 85 C0"`.
    pub fn parse(s: &str) -> (r: Pattern)
        requires
            is_valid_pattern_text(s@),
        ensures
            r@ == pattern_from_text(s@),
    {
        match Pattern::try_parse(s) {
            Some(p) => p,
            None => Pattern(Vec::new()),
        }
    }

    /// Human-readable IDA-style hex string.
    pub fn to_ida_string(&self) -> (r: String)
        ensures
            r@ == ida_text(self@),
    {
        let mut out = String::new();
        let n = self.0.len();
        let mut k: usize = 0;
        while k < n
            invariant
                n == self@.len(),
                k <= n,
                out@ == ida_text(self@.take(k as int)),
            decreases n - k,
        {
            let ghost pre = self@.take(k as int);
            let ghost next = self@.take(k + 1);
            assert(next.drop_last() =~= pre);
            assert(next.last() == self@[k as int]);
            proof {
                reveal_strlit(" ");
                reveal_strlit("??");
            }
            let ghost before = out@;
            if k > 0 {
                out.append(" ");
            }
            let ghost mid = out@;
            match self.0[k] {
                Some(v) => {
                    out.append(hex_digit_str(v / 16));
                    out.append(hex_digit_str(v % 16));
                    assert(out@ =~= mid + element_text(self@[k as int]));
                },
                None => {
                    out.append("??");
                    assert(out@ =~= mid + element_text(self@[k as int]));
                },
            }
            proof {
                if k == 0 {
                    assert(before =~= Seq::<char>::empty());
                    assert(out@ =~= ida_text(next));
                } else {
                    assert(mid =~= ida_text(pre) + seq![' ']);
                    assert(out@ =~= ida_text(next));
                }
            }
            k = k + 1;
        }
        assert(self@.take(n as int) =~= self@);
        out
    }

    /// Generate a pattern from raw bytes, auto-wildcarding RIP-relative and
    /// near call/jmp displacements.
    pub fn generate(bytes: &[u8]) -> (r: Pattern)
        ensures
            r@ == generated(bytes@),
    {
        let n = bytes.len();
        let mut pat: Vec<Option<u8>> = Vec::with_capacity(n);
        let mut i: usize = 0;
        assert(pat@ + generated_from(bytes@, 0) =~= generated(bytes@));
        while i < n
            invariant
                n == bytes@.len(),
                i <= n,
                pat@ + generated_from(bytes@, i as int) == generated(bytes@),
            decreases n - i,
        {
            proof {
                lemma_generate_step(bytes@, i as int);
            }
            let (mut elems, width) = instruction_elements(bytes, i);
            let ghost old_pat = pat@;
            let ghost old_elems = elems@;
            pat.append(&mut elems);
            assert(old_pat + generated_from(bytes@, i as int) =~= pat@ + generated_from(
                bytes@,
                i + width,
            )) by {
                assert(generated_from(bytes@, i as int) == old_elems + generated_from(
                    bytes@,
                    i + width,
                ));
            }
            i = i + width;
        }
        assert(generated_from(bytes@, i as int) =~= Seq::<Option<u8>>::empty());
        assert(pat@ =~= pat@ + generated_from(bytes@, i as int));
        Pattern(pat)
    }

    /// First offset at or after `start` where the pattern matches `data`.
    pub fn scan_from(&self, data: &[u8], start: usize) -> (r: Option<usize>)
        ensures
            match r {
                Some(i) => {
                    &&& self@.len() > 0
                    &&& start <= i
                    &&& matches_at(self@, data@, i as int)
                    &&& forall|k: int| start <= k < i ==> !matches_at(self@, data@, k)
                },
                None => self@.len() == 0 || forall|k: int|
                    start <= k ==> !matches_at(self@, data@, k),
            },
    {
        let pat = &self.0;
        let plen = pat.len();
        let dlen = data.len();
        if plen == 0 || dlen < plen || start > dlen - plen {
            return None;
        }
        let last = dlen - plen;
        let mut i = start;
        while i <= last
            invariant
                pat@ == self@,
                plen == self@.len(),
                plen > 0,
                dlen == data@.len(),
                last + plen == dlen,
                start <= i <= last + 1,
                forall|k: int| start <= k < i ==> !matches_at(self@, data@, k),
            decreases last + 1 - i,
        {
            let mut j: usize = 0;
            let mut ok = true;
            while j < plen && ok
                invariant
                    pat@ == self@,
                    plen == self@.len(),
                    start <= i <= last,
                    dlen == data@.len(),
                    last + plen == dlen,
                    j <= plen,
                    ok ==> forall|jj: int| 0 <= jj < j ==> accepts(self@[jj], data@[i + jj]),
                    !ok ==> !matches_at(self@, data@, i as int),
                decreases plen - j,
            {
                match pat[j] {
                    Some(b) => {
                        if data[i + j] != b {
                            ok = false;
                            assert(!accepts(self@[j as int], data@[i + j]));
                        }
                    },
                    None => {},
                }
                j = j + 1;
            }
            if ok {
                return Some(i);
            }
            i = i + 1;
        }
        None
    }

    /// Scan a byte slice for the pattern. Returns the offset of the first match.
    pub fn scan_slice(&self, data: &[u8]) -> (r: Option<usize>)
        ensures
            r matches Some(i) ==> first_match(self@, data@) == Some(i as int),
            r is None ==> first_match(self@, data@) is None,
            match r {
                Some(i) => {
                    &&& matches_at(self@, data@, i as int)
                    &&& forall|k: int| 0 <= k < i ==> !matches_at(self@, data@, k)
                },
                None => self@.len() == 0 || forall|k: int| !matches_at(self@, data@, k),
            },
    {
        let r = self.scan_from(data, 0);
        proof {
            match r {
                Some(i) => {
                    lemma_no_match_skip(self@, data@, 0, i as int);
                },
                None => {
                    if self@.len() > 0 {
                        assert forall|k: int| !matches_at(self@, data@, k) by {
                            if 0 <= k {
                                assert(0 <= k ==> !matches_at(self@, data@, k));
                            }
                        }
                        if data@.len() >= self@.len() {
                            lemma_no_match_skip(
                                self@,
                                data@,
                                0,
                                data@.len() - self@.len() + 1,
                            );
                        }
                    }
                },
            }
        }
        r
    }
}

} // verus!
