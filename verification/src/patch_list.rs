//! The patch manifest: a line-oriented text file enumerating patch packages,
//! and the local cache of applied patches.
//!
//! Each non-blank, non-comment line is split on ASCII whitespace into
//! `<index> <filename> [k=v ...]`; a single-token line names a file whose
//! index defaults to the record's 0-based position; a line whose first token
//! is not a decimal number (an optional leading plus sign is accepted) is
//! skipped. An option token without `=`, or with an unknown key, is ignored
//! and its line kept, for forward compatibility. Records are then sorted by
//! index, stably.

use vstd::prelude::*;

verus! {

/// ASCII whitespace, the token separator of a manifest line.
pub open spec fn is_space(c: char) -> bool {
    c == ' ' || c == '\t' || c == '\r'
}

/// Position of the first line feed at or after `i`, or `s.len()`.
pub open spec fn line_end(s: Seq<char>, i: int) -> int
    decreases s.len() - i,
{
    if i < 0 || i >= s.len() {
        s.len() as int
    } else if s[i] == '\n' {
        i
    } else {
        line_end(s, i + 1)
    }
}

/// Position of the first whitespace at or after `i` and before `b`, or `b`.
pub open spec fn token_end(s: Seq<char>, i: int, b: int) -> int
    decreases b - i,
{
    if i < 0 || i >= b || i >= s.len() {
        b
    } else if is_space(s[i]) {
        i
    } else {
        token_end(s, i + 1, b)
    }
}

/// The whitespace-separated tokens of `s` between `i` and `b`.
pub open spec fn spec_tokens(s: Seq<char>, i: int, b: int) -> Seq<Seq<char>>
    decreases b - i,
{
    if !(0 <= i && i < b && b <= s.len()) {
        Seq::empty()
    } else if is_space(s[i]) {
        spec_tokens(s, i + 1, b)
    } else {
        let te = token_end(s, i, b);
        let k = if te < i + 1 {
            i + 1
        } else if te > b {
            b
        } else {
            te
        };
        seq![s.subrange(i, k)] + spec_tokens(s, k, b)
    }
}

/// Value of an all-decimal-digit token, bounded by `max`; `None` on a
/// non-digit, on overflow, or on an empty token.
pub open spec fn spec_digits(t: Seq<char>, i: int, acc: int, max: int) -> Option<int>
    decreases t.len() - i,
{
    if i < 0 || i >= t.len() {
        Some(acc)
    } else if 48 <= t[i] as u32 && t[i] as u32 <= 57 {
        let v = acc * 10 + (t[i] as u32 - 48);
        if v > max {
            None
        } else {
            spec_digits(t, i + 1, v, max)
        }
    } else {
        None
    }
}

/// The token's digits, with one optional leading plus sign stripped.
pub open spec fn strip_plus(t: Seq<char>) -> Seq<char> {
    if t.len() > 0 && t[0] == '+' {
        t.skip(1)
    } else {
        t
    }
}

/// A decimal `u32`, optionally `+`-prefixed, or `None`.
pub open spec fn spec_parse_u32(t: Seq<char>) -> Option<u32> {
    let digits = strip_plus(t);
    if digits.len() == 0 {
        None
    } else {
        match spec_digits(digits, 0, 0, u32::MAX as int) {
            Some(v) => Some(v as u32),
            None => None,
        }
    }
}

/// A decimal `u64`, optionally `+`-prefixed, or `None`.
pub open spec fn spec_parse_u64(t: Seq<char>) -> Option<u64> {
    let digits = strip_plus(t);
    if digits.len() == 0 {
        None
    } else {
        match spec_digits(digits, 0, 0, u64::MAX as int) {
            Some(v) => Some(v as u64),
            None => None,
        }
    }
}

/// Mathematical image of one manifest record.
pub ghost struct PatchInfoModel {
    pub index: u32,
    pub filename: Seq<char>,
    pub target_grf: Option<Seq<char>>,
    pub force_extract: bool,
    pub hash: Option<Seq<char>>,
    pub size: Option<u64>,
}

/// One manifest record: the patch's ordering index, its filename relative to
/// the patch-server base URL, and optional `k=v` settings.
#[derive(Debug, Clone)]
pub struct PatchInfo {
    pub index: u32,
    pub filename: String,
    pub target_grf: Option<String>,
    pub force_extract: bool,
    pub hash: Option<String>,
    pub size: Option<u64>,
}

impl View for PatchInfo {
    type V = PatchInfoModel;

    open spec fn view(&self) -> PatchInfoModel {
        PatchInfoModel {
            index: self.index,
            filename: self.filename@,
            target_grf: match self.target_grf {
                Some(t) => Some(t@),
                None => None,
            },
            force_extract: self.force_extract,
            hash: match self.hash {
                Some(h) => Some(h@),
                None => None,
            },
            size: self.size,
        }
    }
}

/// The models of a record list.
pub open spec fn patch_models(s: Seq<PatchInfo>) -> Seq<PatchInfoModel> {
    s.map_values(|p: PatchInfo| p@)
}

/// One `k=v` token applied to a record; a token without `=` and an unknown
/// key are ignored.
pub open spec fn spec_apply_option(m: PatchInfoModel, t: Seq<char>) -> PatchInfoModel {
    let e = token_eq_pos(t, 0);
    if e >= t.len() {
        m
    } else {
        let key = t.subrange(0, e);
        let v = t.subrange(e + 1, t.len() as int);
        if key == "target"@ {
            PatchInfoModel { target_grf: Some(v), ..m }
        } else if key == "extract"@ {
            PatchInfoModel { force_extract: v == "true"@, ..m }
        } else if key == "hash"@ {
            PatchInfoModel { hash: Some(v), ..m }
        } else if key == "size"@ {
            PatchInfoModel { size: spec_parse_u64(v), ..m }
        } else {
            m
        }
    }
}

/// Position of the first `=` at or after `i`, or `t.len()`.
pub open spec fn token_eq_pos(t: Seq<char>, i: int) -> int
    decreases t.len() - i,
{
    if i < 0 || i >= t.len() {
        t.len() as int
    } else if t[i] == '=' {
        i
    } else {
        token_eq_pos(t, i + 1)
    }
}

/// The option tokens from position `i` on, folded left to right.
pub open spec fn spec_apply_options(m: PatchInfoModel, toks: Seq<Seq<char>>, i: int) -> PatchInfoModel
    decreases toks.len() - i,
{
    if i < 0 || i >= toks.len() {
        m
    } else {
        spec_apply_options(spec_apply_option(m, toks[i]), toks, i + 1)
    }
}

/// What one line yields, given the count `pos` of records before it: `None`
/// for a blank line, a comment, a first token that is not a decimal number,
/// or a position that cannot index a record.
pub open spec fn spec_parse_line(toks: Seq<Seq<char>>, pos: int) -> Option<PatchInfoModel> {
    if toks.len() == 0 {
        None
    } else if toks[0].len() >= 1 && toks[0][0] == '#' {
        None
    } else if toks[0].len() >= 2 && toks[0][0] == '/' && toks[0][1] == '/' {
        None
    } else if toks.len() == 1 {
        if 0 <= pos <= u32::MAX {
            Some(
                PatchInfoModel {
                    index: pos as u32,
                    filename: toks[0],
                    target_grf: None,
                    force_extract: false,
                    hash: None,
                    size: None,
                },
            )
        } else {
            None
        }
    } else {
        match spec_parse_u32(toks[0]) {
            None => None,
            Some(n) => Some(
                spec_apply_options(
                    PatchInfoModel {
                        index: n,
                        filename: toks[1],
                        target_grf: None,
                        force_extract: false,
                        hash: None,
                        size: None,
                    },
                    toks,
                    2,
                ),
            ),
        }
    }
}

/// The records of the manifest text from position `i` on, with `pos` records
/// already yielded.
pub open spec fn spec_parse_from(s: Seq<char>, i: int, pos: int) -> Seq<PatchInfoModel>
    decreases s.len() - i + 1,
{
    if !(0 <= i && i < s.len()) {
        Seq::empty()
    } else {
        let le = line_end(s, i);
        let k = if le < i {
            i
        } else if le > s.len() {
            s.len() as int
        } else {
            le
        };
        match spec_parse_line(spec_tokens(s, i, k), pos) {
            Some(r) => seq![r] + spec_parse_from(s, k + 1, pos + 1),
            None => spec_parse_from(s, k + 1, pos),
        }
    }
}

/// All records of a manifest text, in source order.
pub open spec fn spec_parse_manifest(s: Seq<char>) -> Seq<PatchInfoModel> {
    spec_parse_from(s, 0, 0)
}

/// `line_end` is the position of the first line feed.
pub proof fn lemma_line_end_at(s: Seq<char>, i: int, k: int)
    requires
        0 <= i <= k <= s.len(),
        forall|j: int| i <= j < k ==> s[j] != '\n',
        k < s.len() ==> s[k] == '\n',
    ensures
        line_end(s, i) == k,
    decreases k - i,
{
    if i == k {
    } else {
        lemma_line_end_at(s, i + 1, k);
    }
}

/// `token_end` is the position of the first whitespace before `b`.
pub proof fn lemma_token_end_at(s: Seq<char>, i: int, k: int, b: int)
    requires
        0 <= i <= k <= b <= s.len(),
        forall|j: int| i <= j < k ==> !is_space(s[j]),
        k < b ==> is_space(s[k]),
    ensures
        token_end(s, i, b) == k,
    decreases k - i,
{
    if i == k {
    } else {
        lemma_token_end_at(s, i + 1, k, b);
    }
}

/// `token_eq_pos` is the position of the first `=`.
pub proof fn lemma_token_eq_pos_at(t: Seq<char>, i: int, k: int)
    requires
        0 <= i <= k <= t.len(),
        forall|j: int| i <= j < k ==> t[j] != '=',
        k < t.len() ==> t[k] == '=',
    ensures
        token_eq_pos(t, i) == k,
    decreases k - i,
{
    if i == k {
    } else {
        lemma_token_eq_pos_at(t, i + 1, k);
    }
}


/// The characters of a string, in order.
fn collect_chars(s: &str) -> (r: Vec<char>)
    ensures
        r@ == s@,
{
    let n = s.unicode_len();
    let mut out: Vec<char> = Vec::new();
    let mut i: usize = 0;
    while i < n
        invariant
            i <= n,
            n == s@.len(),
            out@ == s@.take(i as int),
        decreases n - i,
    {
        out.push(s.get_char(i));
        proof {
            assert(s@.take(i + 1 as int) =~= s@.take(i as int).push(s@[i as int]));
        }
        i = i + 1;
    }
    proof {
        assert(s@.take(s@.len() as int) =~= s@);
    }
    out
}

/// Whether `c` separates tokens.
fn is_space_char(c: char) -> (r: bool)
    ensures
        r == is_space(c),
{
    c == ' ' || c == '\t' || c == '\r'
}

/// Character-range equality against a key.
fn range_eq(chars: &Vec<char>, a: usize, e: usize, key: &Vec<char>) -> (r: bool)
    requires
        a <= e <= chars@.len(),
    ensures
        r == (chars@.subrange(a as int, e as int) == key@),
{
    if e - a != key.len() {
        proof {
            assert(chars@.subrange(a as int, e as int).len() == e - a);
        }
        return false;
    }
    let mut j: usize = 0;
    while j < key.len()
        invariant
            j <= key@.len(),
            a + key@.len() == e <= chars@.len(),
            forall|x: int| 0 <= x < j ==> chars@[a + x] == key@[x],
        decreases key@.len() - j,
    {
        if chars[a + j] != key[j] {
            proof {
                assert(chars@.subrange(a as int, e as int)[j as int] != key@[j as int]);
            }
            return false;
        }
        j = j + 1;
    }
    proof {
        assert(chars@.subrange(a as int, e as int) =~= key@);
    }
    true
}

/// Token ranges of `chars` between `a` and `b`, in order.
#[verifier::loop_isolation(false)]
fn tokenize(chars: &Vec<char>, a: usize, b: usize) -> (r: Vec<(usize, usize)>)
    requires
        a <= b <= chars@.len(),
    ensures
        r@.map_values(|p: (usize, usize)| chars@.subrange(p.0 as int, p.1 as int)) == spec_tokens(
            chars@,
            a as int,
            b as int,
        ),
        forall|i: int| 0 <= i < r@.len() ==> a <= (#[trigger] r@[i]).0 < r@[i].1 <= b,
    decreases b - a,
{
    let ghost s = chars@;
    let ghost total = spec_tokens(s, a as int, b as int);
    let mut out: Vec<(usize, usize)> = Vec::new();
    let mut cur: usize = a;
    proof {
        assert(out@.map_values(|p: (usize, usize)| s.subrange(p.0 as int, p.1 as int)) + total
            =~= total);
    }
    while cur < b
        invariant
            a <= cur <= b,
            out@.map_values(|p: (usize, usize)| s.subrange(p.0 as int, p.1 as int)) + spec_tokens(
                s,
                cur as int,
                b as int,
            ) == total,
            forall|i: int| 0 <= i < out@.len() ==> a <= (#[trigger] out@[i]).0 < out@[i].1 <= b,
        decreases b - cur,
    {
        if is_space_char(chars[cur]) {
            cur = cur + 1;
            continue ;
        }
        let mut te: usize = cur + 1;
        while te < b && !is_space_char(chars[te])
            invariant
                cur + 1 <= te <= b,
                forall|x: int| cur + 1 <= x < te ==> !is_space(s[x]),
            decreases b - te,
        {
            te = te + 1;
        }
        proof {
            assert(forall|x: int| cur <= x < te ==> !is_space(s[x]));
            lemma_token_end_at(s, cur as int, te as int, b as int);
            assert(spec_tokens(s, cur as int, b as int) == seq![
                s.subrange(cur as int, te as int),
            ] + spec_tokens(s, te as int, b as int));
        }
        let ghost pre = out@;
        out.push((cur, te));
        proof {
            let f = |p: (usize, usize)| s.subrange(p.0 as int, p.1 as int);
            assert(out@.map_values(f) =~= pre.map_values(f).push(
                s.subrange(cur as int, te as int),
            ));
            assert(pre.map_values(f).push(s.subrange(cur as int, te as int)) + spec_tokens(
                s,
                te as int,
                b as int,
            ) =~= pre.map_values(f) + (seq![s.subrange(cur as int, te as int)] + spec_tokens(
                s,
                te as int,
                b as int,
            )));
        }
        cur = te;
    }
    proof {
        assert(out@.map_values(|p: (usize, usize)| s.subrange(p.0 as int, p.1 as int)) + Seq::<
            Seq<char>,
        >::empty() =~= out@.map_values(|p: (usize, usize)| s.subrange(p.0 as int, p.1 as int)));
    }
    out
}

/// A decimal `u32` read from a character range.
#[verifier::loop_isolation(false)]
fn parse_u32_range(chars: &Vec<char>, a: usize, b: usize) -> (r: Option<u32>)
    requires
        a <= b <= chars@.len(),
    ensures
        r == spec_parse_u32(chars@.subrange(a as int, b as int)),
{
    let ghost t = chars@.subrange(a as int, b as int);
    let start: usize = if a < b && chars[a] == '+' {
        a + 1
    } else {
        a
    };
    let ghost digits = strip_plus(t);
    proof {
        assert(digits =~= chars@.subrange(start as int, b as int));
    }
    if start == b {
        return None;
    }
    let mut acc: u64 = 0;
    let mut i: usize = start;
    while i < b
        invariant
            start <= i <= b,
            acc <= u32::MAX,
            spec_digits(digits, 0, 0, u32::MAX as int) == spec_digits(
                digits,
                i - start,
                acc as int,
                u32::MAX as int,
            ),
        decreases b - i,
    {
        let u = chars[i] as u32;
        proof {
            assert(digits[i - start] == chars@[i as int]);
        }
        if u < 48 || u > 57 {
            return None;
        }
        let d = (u - 48) as u64;
        let v = acc * 10 + d;
        if v > u32::MAX as u64 {
            return None;
        }
        proof {
            assert(digits[i - start] as u32 == u);
            assert(digits[i - start] as u32 - 48 == d);
            assert(spec_digits(digits, i - start, acc as int, u32::MAX as int) == spec_digits(
                digits,
                i - start + 1,
                v as int,
                u32::MAX as int,
            ));
        }
        acc = v;
        i = i + 1;
    }
    Some(acc as u32)
}

/// A decimal `u64` read from a character range.
#[verifier::loop_isolation(false)]
fn parse_u64_range(chars: &Vec<char>, a: usize, b: usize) -> (r: Option<u64>)
    requires
        a <= b <= chars@.len(),
    ensures
        r == spec_parse_u64(chars@.subrange(a as int, b as int)),
{
    let ghost t = chars@.subrange(a as int, b as int);
    let start: usize = if a < b && chars[a] == '+' {
        a + 1
    } else {
        a
    };
    let ghost digits = strip_plus(t);
    proof {
        assert(digits =~= chars@.subrange(start as int, b as int));
    }
    if start == b {
        return None;
    }
    let mut acc: u64 = 0;
    let mut i: usize = start;
    while i < b
        invariant
            start <= i <= b,
            spec_digits(digits, 0, 0, u64::MAX as int) == spec_digits(
                digits,
                i - start,
                acc as int,
                u64::MAX as int,
            ),
        decreases b - i,
    {
        let u = chars[i] as u32;
        proof {
            assert(digits[i - start] == chars@[i as int]);
        }
        if u < 48 || u > 57 {
            return None;
        }
        let d = (u - 48) as u64;
        if acc > (u64::MAX - d) / 10 {
            proof {
                assert(acc * 10 + d > u64::MAX) by (nonlinear_arith)
                    requires
                        acc > (u64::MAX - d) / 10,
                        d <= 9,
                ;
            }
            return None;
        }
        let v = acc * 10 + d;
        proof {
            assert(digits[i - start] as u32 == u);
            assert(digits[i - start] as u32 - 48 == d);
            assert(acc * 10 + d <= u64::MAX) by (nonlinear_arith)
                requires
                    acc <= (u64::MAX - d) / 10,
                    d <= 9,
            ;
            assert(spec_digits(digits, i - start, acc as int, u64::MAX as int) == spec_digits(
                digits,
                i - start + 1,
                v as int,
                u64::MAX as int,
            ));
        }
        acc = v;
        i = i + 1;
    }
    Some(acc)
}

/// One `k=v` token applied to a record.
#[verifier::loop_isolation(false)]
fn apply_option(m: PatchInfo, body: &str, chars: &Vec<char>, a: usize, b: usize) -> (r: PatchInfo)
    requires
        chars@ == body@,
        a <= b <= chars@.len(),
    ensures
        r@ == spec_apply_option(m@, chars@.subrange(a as int, b as int)),
{
    let ghost t = chars@.subrange(a as int, b as int);
    let mut e: usize = a;
    while e < b && chars[e] != '='
        invariant
            a <= e <= b,
            forall|x: int| a <= x < e ==> chars@[x] != '=',
        decreases b - e,
    {
        e = e + 1;
    }
    proof {
        assert forall|x: int| 0 <= x < e - a implies t[x] != '=' by {
            assert(t[x] == chars@[a + x]);
        }
        if (e as int) < (b as int) {
            assert(t[e - a] == chars@[e as int]);
        }
        lemma_token_eq_pos_at(t, 0, e - a);
    }
    if e == b {
        return m;
    }
    let ghost key = t.subrange(0, e - a);
    let ghost v = t.subrange(e + 1 - a, t.len() as int);
    proof {
        assert(key =~= chars@.subrange(a as int, e as int));
        assert(v =~= chars@.subrange(e + 1, b as int));
    }
    let k_target: Vec<char> = vec!['t', 'a', 'r', 'g', 'e', 't'];
    let k_extract: Vec<char> = vec!['e', 'x', 't', 'r', 'a', 'c', 't'];
    let k_hash: Vec<char> = vec!['h', 'a', 's', 'h'];
    let k_size: Vec<char> = vec!['s', 'i', 'z', 'e'];
    let k_true: Vec<char> = vec!['t', 'r', 'u', 'e'];
    proof {
        reveal_strlit("target");
        reveal_strlit("extract");
        reveal_strlit("hash");
        reveal_strlit("size");
        reveal_strlit("true");
        assert(k_target@ =~= "target"@);
        assert(k_extract@ =~= "extract"@);
        assert(k_hash@ =~= "hash"@);
        assert(k_size@ =~= "size"@);
        assert(k_true@ =~= "true"@);
    }
    let mut m = m;
    if range_eq(chars, a, e, &k_target) {
        m.target_grf = Some(body.substring_char(e + 1, b).to_owned());
    } else if range_eq(chars, a, e, &k_extract) {
        m.force_extract = range_eq(chars, e + 1, b, &k_true);
    } else if range_eq(chars, a, e, &k_hash) {
        m.hash = Some(body.substring_char(e + 1, b).to_owned());
    } else if range_eq(chars, a, e, &k_size) {
        m.size = parse_u64_range(chars, e + 1, b);
    }
    m
}

/// One manifest line parsed into a record, given the count `pos` of records
/// before it.
#[verifier::loop_isolation(false)]
fn parse_line(body: &str, chars: &Vec<char>, a: usize, b: usize, pos: usize) -> (r: Option<
    PatchInfo,
>)
    requires
        chars@ == body@,
        a <= b <= chars@.len(),
    ensures
        match r {
            Some(p) => spec_parse_line(spec_tokens(chars@, a as int, b as int), pos as int)
                == Some(p@),
            None => spec_parse_line(spec_tokens(chars@, a as int, b as int), pos as int) is None,
        },
{
    let ghost s = chars@;
    let ghost tseq = spec_tokens(s, a as int, b as int);
    let toks = tokenize(chars, a, b);
    proof {
        assert(toks@.map_values(|p: (usize, usize)| s.subrange(p.0 as int, p.1 as int)) == tseq);
        assert(toks@.len() == tseq.len());
    }
    if toks.len() == 0 {
        return None;
    }
    let (t0a, t0b) = (toks[0].0, toks[0].1);
    proof {
        assert(tseq[0] == s.subrange(t0a as int, t0b as int));
        assert(tseq[0].len() == t0b - t0a);
        assert(forall|x: int| 0 <= x < t0b - t0a ==> tseq[0][x] == s[t0a + x]);
    }
    if chars[t0a] == '#' {
        return None;
    }
    if t0b - t0a >= 2 && chars[t0a] == '/' && chars[t0a + 1] == '/' {
        return None;
    }
    if toks.len() == 1 {
        if pos <= u32::MAX as usize {
            let p = PatchInfo {
                index: pos as u32,
                filename: body.substring_char(t0a, t0b).to_owned(),
                target_grf: None,
                force_extract: false,
                hash: None,
                size: None,
            };
            proof {
                assert(p@.filename =~= tseq[0]);
            }
            return Some(p);
        } else {
            return None;
        }
    }
    let n = match parse_u32_range(chars, t0a, t0b) {
        Some(n) => n,
        None => {
            return None;
        },
    };
    let (t1a, t1b) = (toks[1].0, toks[1].1);
    proof {
        assert(tseq[1] == s.subrange(t1a as int, t1b as int));
    }
    let mut m = PatchInfo {
        index: n,
        filename: body.substring_char(t1a, t1b).to_owned(),
        target_grf: None,
        force_extract: false,
        hash: None,
        size: None,
    };
    let ghost base = m@;
    proof {
        assert(base.filename =~= tseq[1]);
    }
    let mut j: usize = 2;
    while j < toks.len()
        invariant
            2 <= j <= toks@.len(),
            spec_apply_options(base, tseq, 2) == spec_apply_options(m@, tseq, j as int),
        decreases toks@.len() - j,
    {
        let (oa, ob) = (toks[j].0, toks[j].1);
        proof {
            assert(tseq[j as int] == s.subrange(oa as int, ob as int));
        }
        m = apply_option(m, body, chars, oa, ob);
        j = j + 1;
    }
    Some(m)
}


/// Parses a manifest body into records, in source order: one record per
/// non-blank, non-comment line whose first token is a decimal index (or a
/// single-token line, indexed by its 0-based record position).
#[verifier::loop_isolation(false)]
pub fn parse_patch_list(body: &str) -> (r: Vec<PatchInfo>)
    ensures
        patch_models(r@) == spec_parse_manifest(body@),
{
    let ghost s = body@;
    let chars = collect_chars(body);
    let n = chars.len();
    let mut out: Vec<PatchInfo> = Vec::new();
    let mut i: usize = 0;
    proof {
        assert(patch_models(out@) =~= Seq::<PatchInfoModel>::empty());
        assert(patch_models(out@) + spec_parse_from(s, 0, 0) =~= spec_parse_from(s, 0, 0));
    }
    while i < n
        invariant
            i <= n,
            patch_models(out@) + spec_parse_from(s, i as int, out@.len() as int)
                == spec_parse_manifest(s),
        decreases n - i,
    {
        let mut k: usize = i;
        while k < n && chars[k] != '\n'
            invariant
                i <= k <= n,
                forall|j: int| i <= j < k ==> s[j] != '\n',
            decreases n - k,
        {
            k = k + 1;
        }
        proof {
            lemma_line_end_at(s, i as int, k as int);
        }
        let rec = parse_line(body, &chars, i, k, out.len());
        let ghost c = out@.len() as int;
        match rec {
            Some(p) => {
                let ghost pre = patch_models(out@);
                let ghost pm = p@;
                out.push(p);
                proof {
                    assert(patch_models(out@) =~= pre.push(pm));
                    assert(spec_parse_from(s, i as int, c) == seq![pm] + spec_parse_from(
                        s,
                        k + 1 as int,
                        c + 1,
                    ));
                    assert(pre.push(pm) + spec_parse_from(s, k + 1 as int, c + 1) =~= pre + (seq![
                        pm,
                    ] + spec_parse_from(s, k + 1 as int, c + 1)));
                }
            },
            None => {
                proof {
                    assert(spec_parse_from(s, i as int, c) == spec_parse_from(s, k + 1 as int, c));
                }
            },
        }
        if k < n {
            i = k + 1;
        } else {
            proof {
                assert(spec_parse_from(s, k + 1 as int, out@.len() as int) =~= Seq::<
                    PatchInfoModel,
                >::empty());
                assert(spec_parse_from(s, n as int, out@.len() as int) =~= Seq::<
                    PatchInfoModel,
                >::empty());
            }
            i = n;
        }
    }
    proof {
        assert(patch_models(out@) + spec_parse_from(s, i as int, out@.len() as int)
            =~= patch_models(out@));
    }
    out
}

/// A record inserted into a list sorted by index, after every record whose
/// index is less than or equal to its own.
pub open spec fn spec_insert_sorted(s: Seq<PatchInfoModel>, x: PatchInfoModel) -> Seq<
    PatchInfoModel,
>
    decreases s.len(),
{
    if s.len() == 0 {
        seq![x]
    } else if x.index < s[0].index {
        seq![x] + s
    } else {
        seq![s[0]] + spec_insert_sorted(s.skip(1), x)
    }
}

/// The stable insertion sort of a record list by index.
pub open spec fn spec_sort(s: Seq<PatchInfoModel>) -> Seq<PatchInfoModel>
    decreases s.len(),
{
    if s.len() == 0 {
        Seq::empty()
    } else {
        spec_insert_sorted(spec_sort(s.drop_last()), s.last())
    }
}

/// Non-decreasing indexes.
pub open spec fn sorted_by_index(s: Seq<PatchInfoModel>) -> bool {
    forall|i: int, j: int| 0 <= i < j < s.len() ==> (#[trigger] s[i]).index <= (#[trigger] s[j]).index
}

/// Sorted insertion keeps a list sorted and its contents.
pub proof fn lemma_insert_sorted(s: Seq<PatchInfoModel>, x: PatchInfoModel)
    requires
        sorted_by_index(s),
    ensures
        sorted_by_index(spec_insert_sorted(s, x)),
        spec_insert_sorted(s, x).to_multiset() == s.to_multiset().insert(x),
        spec_insert_sorted(s, x).len() == s.len() + 1,
    decreases s.len(),
{
    broadcast use vstd::seq_lib::group_to_multiset_ensures;

    if s.len() == 0 {
        assert(seq![x].to_multiset() =~= s.to_multiset().insert(x)) by {
            assert(seq![x] =~= s.push(x));
        }
    } else if x.index < s[0].index {
        let r = seq![x] + s;
        assert(r =~= s.insert(0, x));
        assert(forall|i: int| 0 <= i < s.len() ==> s[0].index <= (#[trigger] s[i]).index);
        assert(sorted_by_index(r));
    } else {
        assert(sorted_by_index(s.skip(1)));
        lemma_insert_sorted(s.skip(1), x);
        let rec = spec_insert_sorted(s.skip(1), x);
        let r = seq![s[0]] + rec;
        assert(r =~= rec.insert(0, s[0]));
        assert(s =~= s.skip(1).insert(0, s[0]));
        assert forall|i: int, j: int| 0 <= i < j < r.len() implies (#[trigger] r[i]).index <= (
        #[trigger] r[j]).index by {
            if i == 0 {
                if j - 1 < s.skip(1).len() && rec.to_multiset().contains(rec[j - 1]) {
                }
                assert(rec[j - 1] == r[j]);
                assert(rec.to_multiset().contains(rec[j - 1]));
                assert(s.skip(1).to_multiset().insert(x).contains(rec[j - 1]));
                if rec[j - 1] == x {
                    assert(r[i].index <= r[j].index);
                } else {
                    assert(s.skip(1).to_multiset().contains(rec[j - 1]));
                    let w = choose|w: int| 0 <= w < s.skip(1).len() && s.skip(1)[w] == rec[j - 1];
                    assert(s[w + 1] == rec[j - 1]);
                    assert(s[0].index <= s[w + 1].index);
                }
            }
        }
    }
}

/// The sort is sorted and is a permutation of its input.
pub proof fn lemma_sort_permutes(s: Seq<PatchInfoModel>)
    ensures
        sorted_by_index(spec_sort(s)),
        spec_sort(s).to_multiset() == s.to_multiset(),
        spec_sort(s).len() == s.len(),
    decreases s.len(),
{
    broadcast use vstd::seq_lib::group_to_multiset_ensures;

    if s.len() == 0 {
    } else {
        lemma_sort_permutes(s.drop_last());
        lemma_insert_sorted(spec_sort(s.drop_last()), s.last());
        assert(s =~= s.drop_last().push(s.last()));
        assert(s.drop_last().push(s.last()).to_multiset() == s.drop_last().to_multiset().insert(
            s.last(),
        ));
    }
}

/// Sorts records by index, stably: a record inserted goes after every record
/// with an index less than or equal to its own.
#[verifier::loop_isolation(false)]
pub fn sort_patches(list: Vec<PatchInfo>) -> (r: Vec<PatchInfo>)
    ensures
        patch_models(r@) == spec_sort(patch_models(list@)),
{
    let ghost lm = patch_models(list@);
    let mut out: Vec<PatchInfo> = Vec::new();
    let mut list = list;
    let mut i: usize = 0;
    let n = list.len();
    proof {
        assert(lm.take(0) =~= Seq::<PatchInfoModel>::empty());
        assert(patch_models(out@) =~= spec_sort(lm.take(0)));
    }
    while i < n
        invariant
            i <= n,
            n == list@.len(),
            lm == patch_models(list@),
            patch_models(out@) == spec_sort(lm.take(i as int)),
        decreases n - i,
    {
        let x = clone_patch(&list[i]);
        let ghost xm = x@;
        proof {
            assert(lm[i as int] == xm);
        }
        // find the insertion point: after all records with index <= x.index
        let ghost sorted = patch_models(out@);
        let mut p: usize = 0;
        while p < out.len() && out[p].index <= x.index
            invariant
                p <= out@.len(),
                sorted == patch_models(out@),
                forall|q: int| 0 <= q < p ==> (#[trigger] sorted[q]).index <= xm.index,
            decreases out@.len() - p,
        {
            p = p + 1;
        }
        proof {
            lemma_insert_at(sorted, xm, p as int);
        }
        let ghost pre = out@;
        out.insert(p, x);
        proof {
            assert(patch_models(out@) =~= patch_models(pre).insert(p as int, xm));
            assert(lm.take(i + 1 as int).drop_last() =~= lm.take(i as int));
            assert(lm.take(i + 1 as int).last() == lm[i as int]);
        }
        i = i + 1;
    }
    proof {
        assert(lm.take(n as int) =~= lm);
    }
    out
}

/// Inserting at the first position whose record exceeds the new index is the
/// sorted insertion.
proof fn lemma_insert_at(s: Seq<PatchInfoModel>, x: PatchInfoModel, p: int)
    requires
        0 <= p <= s.len(),
        forall|q: int| 0 <= q < p ==> (#[trigger] s[q]).index <= x.index,
        p < s.len() ==> x.index < s[p].index,
    ensures
        s.insert(p, x) == spec_insert_sorted(s, x),
    decreases s.len(),
{
    if s.len() == 0 {
        assert(s.insert(0, x) =~= seq![x]);
    } else if p == 0 {
        assert(x.index < s[0].index);
        assert(s.insert(0, x) =~= seq![x] + s);
    } else {
        assert(s[0].index <= x.index);
        lemma_insert_at(s.skip(1), x, p - 1);
        assert(s.insert(p, x) =~= seq![s[0]] + s.skip(1).insert(p - 1, x));
    }
}

/// A deep copy of a record.
pub fn clone_patch(p: &PatchInfo) -> (r: PatchInfo)
    ensures
        r@ == p@,
{
    PatchInfo {
        index: p.index,
        filename: p.filename.clone(),
        target_grf: match &p.target_grf {
            Some(t) => Some(t.clone()),
            None => None,
        },
        force_extract: p.force_extract,
        hash: match &p.hash {
            Some(h) => Some(h.clone()),
            None => None,
        },
        size: p.size,
    }
}


/// Mathematical image of the local cache.
pub ghost struct LocalCacheModel {
    pub last_patch_id: u32,
    pub installed_patches: Seq<u32>,
    pub grf_versions: Seq<(Seq<char>, Seq<char>)>,
    pub last_check: Seq<char>,
}

/// The persisted record of applied patches: the highest applied index, the
/// set of applied indexes, per-container version stamps, and the time of the
/// last check (stamped by the host; this library never reads a clock).
#[derive(Debug, Clone)]
pub struct LocalCache {
    pub last_patch_id: u32,
    pub installed_patches: Vec<u32>,
    pub grf_versions: Vec<(String, String)>,
    pub last_check: String,
}

impl View for LocalCache {
    type V = LocalCacheModel;

    open spec fn view(&self) -> LocalCacheModel {
        LocalCacheModel {
            last_patch_id: self.last_patch_id,
            installed_patches: self.installed_patches@,
            grf_versions: self.grf_versions@.map_values(|p: (String, String)| (p.0@, p.1@)),
            last_check: self.last_check@,
        }
    }
}

/// The cache invariant: no applied index exceeds `last_patch_id`.
pub open spec fn cache_wf(c: LocalCacheModel) -> bool {
    forall|i: int|
        0 <= i < c.installed_patches.len() ==> #[trigger] c.installed_patches[i]
            <= c.last_patch_id
}

impl Default for LocalCache {
    /// An empty cache: nothing applied, no version stamps, no check time.
    fn default() -> (r: LocalCache)
        ensures
            r.last_patch_id == 0,
            r.installed_patches@ == Seq::<u32>::empty(),
            r.grf_versions@.len() == 0,
            r.last_check@ == Seq::<char>::empty(),
            cache_wf(r@),
    {
        LocalCache {
            last_patch_id: 0,
            installed_patches: Vec::new(),
            grf_versions: Vec::new(),
            last_check: String::new(),
        }
    }
}

/// The cache after recording one applied patch.
pub open spec fn spec_record(c: LocalCacheModel, index: u32) -> LocalCacheModel {
    LocalCacheModel {
        last_patch_id: if index > c.last_patch_id {
            index
        } else {
            c.last_patch_id
        },
        installed_patches: if c.installed_patches.contains(index) {
            c.installed_patches
        } else {
            c.installed_patches.push(index)
        },
        grf_versions: c.grf_versions,
        last_check: c.last_check,
    }
}

/// The cache after recording each index of `idxs` in order.
pub open spec fn spec_record_all(c: LocalCacheModel, idxs: Seq<u32>) -> LocalCacheModel
    decreases idxs.len(),
{
    if idxs.len() == 0 {
        c
    } else {
        spec_record(spec_record_all(c, idxs.drop_last()), idxs.last())
    }
}

/// Whether `v` holds `x`.
pub fn contains_index(v: &Vec<u32>, x: u32) -> (r: bool)
    ensures
        r == v@.contains(x),
{
    let mut i: usize = 0;
    while i < v.len()
        invariant
            i <= v@.len(),
            forall|j: int| 0 <= j < i ==> v@[j] != x,
        decreases v@.len() - i,
    {
        if v[i] == x {
            return true;
        }
        i = i + 1;
    }
    proof {
        if v@.contains(x) {
            let j = choose|j: int| 0 <= j < v@.len() && v@[j] == x;
        }
    }
    false
}

/// Records one applied patch: the index joins the applied set and
/// `last_patch_id` rises to it if it is higher.
pub fn record_applied(cache: &mut LocalCache, index: u32)
    requires
        cache_wf(old(cache)@),
    ensures
        final(cache)@ == spec_record(old(cache)@, index),
        cache_wf(final(cache)@),
        final(cache)@.last_patch_id >= index,
        final(cache)@.installed_patches.contains(index),
{
    let ghost pre = cache@;
    if index > cache.last_patch_id {
        cache.last_patch_id = index;
    }
    if !contains_index(&cache.installed_patches, index) {
        cache.installed_patches.push(index);
    }
    proof {
        assert(cache@.installed_patches.contains(index)) by {
            if !pre.installed_patches.contains(index) {
                assert(cache@.installed_patches.last() == index);
            }
        }
        assert forall|i: int| 0 <= i < cache@.installed_patches.len() implies #[trigger] cache@
            .installed_patches[i] <= cache@.last_patch_id by {
            if i < pre.installed_patches.len() {
                assert(pre.installed_patches[i] <= pre.last_patch_id);
            }
        }
    }
}

/// After a run of recordings, `last_patch_id` is the maximum of its old value
/// and every recorded index, each recorded index is in the applied set, and
/// the applied set grows by nothing else.
pub proof fn lemma_monotonic_cache(c: LocalCacheModel, idxs: Seq<u32>)
    requires
        cache_wf(c),
    ensures
        cache_wf(spec_record_all(c, idxs)),
        forall|j: int|
            0 <= j < idxs.len() ==> spec_record_all(c, idxs).last_patch_id >= #[trigger] idxs[j],
        spec_record_all(c, idxs).last_patch_id >= c.last_patch_id,
        idxs.len() > 0 ==> (spec_record_all(c, idxs).last_patch_id == c.last_patch_id
            || idxs.contains(spec_record_all(c, idxs).last_patch_id)),
        forall|j: int|
            0 <= j < idxs.len() ==> spec_record_all(c, idxs).installed_patches.contains(
                #[trigger] idxs[j],
            ),
        forall|x: u32|
            spec_record_all(c, idxs).installed_patches.contains(x) ==> (
            c.installed_patches.contains(x) || idxs.contains(x)),
    decreases idxs.len(),
{
    if idxs.len() == 0 {
    } else {
        let rest = idxs.drop_last();
        let x = idxs.last();
        lemma_monotonic_cache(c, rest);
        let mid = spec_record_all(c, rest);
        let fin = spec_record(mid, x);
        assert(spec_record_all(c, idxs) == fin);
        assert forall|i: int| 0 <= i < fin.installed_patches.len() implies #[trigger] fin
            .installed_patches[i] <= fin.last_patch_id by {
            if i < mid.installed_patches.len() {
                assert(mid.installed_patches[i] <= mid.last_patch_id);
            }
        }
        assert(fin.installed_patches.contains(x)) by {
            if !mid.installed_patches.contains(x) {
                assert(fin.installed_patches.last() == x);
            }
        }
        assert forall|j: int| 0 <= j < idxs.len() implies fin.installed_patches.contains(
            #[trigger] idxs[j],
        ) by {
            if j < idxs.len() - 1 {
                assert(mid.installed_patches.contains(idxs[j])) by {
                    assert(rest[j] == idxs[j]);
                }
                if !mid.installed_patches.contains(x) {
                    let w = choose|w: int|
                        0 <= w < mid.installed_patches.len() && mid.installed_patches[w] == idxs[j];
                    assert(fin.installed_patches[w] == idxs[j]);
                }
            }
        }
        assert forall|j: int| 0 <= j < idxs.len() implies fin.last_patch_id >= #[trigger] idxs[j] by {
            if j < idxs.len() - 1 {
                assert(rest[j] == idxs[j]);
                assert(mid.last_patch_id >= idxs[j]);
            }
        }
        if idxs.len() > 0 {
            assert(fin.last_patch_id == c.last_patch_id || idxs.contains(fin.last_patch_id)) by {
                if fin.last_patch_id == x {
                    assert(idxs[idxs.len() - 1] == x);
                } else {
                    assert(fin.last_patch_id == mid.last_patch_id);
                    if rest.len() > 0 && mid.last_patch_id != c.last_patch_id {
                        assert(rest.contains(mid.last_patch_id));
                        let w = choose|w: int| 0 <= w < rest.len() && rest[w] == mid.last_patch_id;
                        assert(idxs[w] == mid.last_patch_id);
                    }
                }
            }
        }
        assert forall|y: u32| fin.installed_patches.contains(y) implies (c.installed_patches.contains(
            y,
        ) || idxs.contains(y)) by {
            if y != x || mid.installed_patches.contains(x) {
                if fin.installed_patches.contains(y) && !mid.installed_patches.contains(y) {
                    assert(y == x);
                    assert(idxs[idxs.len() - 1] == y);
                } else {
                    if mid.installed_patches.contains(y) {
                        if !c.installed_patches.contains(y) {
                            assert(rest.contains(y));
                            let w = choose|w: int| 0 <= w < rest.len() && rest[w] == y;
                            assert(idxs[w] == y);
                        }
                    }
                }
            } else {
                assert(idxs[idxs.len() - 1] == y);
            }
        }
    }
}

/// The records not yet applied, in their given order.
#[verifier::loop_isolation(false)]
pub fn filter_unapplied_patches(all_patches: &Vec<PatchInfo>, cache: &LocalCache) -> (r: Vec<
    PatchInfo,
>)
    ensures
        patch_models(r@) == patch_models(all_patches@).filter(
            |m: PatchInfoModel| !cache@.installed_patches.contains(m.index),
        ),
{
    let ghost keep = |m: PatchInfoModel| !cache@.installed_patches.contains(m.index);
    let ghost am = patch_models(all_patches@);
    let mut out: Vec<PatchInfo> = Vec::new();
    let mut i: usize = 0;
    proof {
        assert(am.take(0) =~= Seq::<PatchInfoModel>::empty());
        assert(patch_models(out@) =~= am.take(0).filter(keep));
    }
    while i < all_patches.len()
        invariant
            i <= all_patches@.len(),
            patch_models(out@) == am.take(i as int).filter(keep),
        decreases all_patches@.len() - i,
    {
        proof {
            assert(am.take(i + 1 as int).drop_last() =~= am.take(i as int));
            assert(am.take(i + 1 as int).last() == am[i as int]);
            reveal(Seq::filter);
        }
        if !contains_index(&cache.installed_patches, all_patches[i].index) {
            let ghost pre = patch_models(out@);
            out.push(clone_patch(&all_patches[i]));
            proof {
                assert(patch_models(out@) =~= pre.push(am[i as int]));
            }
        }
        i = i + 1;
    }
    proof {
        assert(am.take(am.len() as int) =~= am);
    }
    out
}

/// Errors of the manifest client.
#[derive(Debug, Clone)]
pub enum PatchListError {
    /// The manifest endpoint answered with a failure status.
    ManifestFetch(u16),
}

/// The manifest resolved from an HTTP response: 404 means no patches are
/// published (an empty list); any other non-success status is an error; a
/// success body is parsed and stably sorted by index.
pub fn manifest_from_response(status: u16, body: &str) -> (r: Result<Vec<PatchInfo>, PatchListError>)
    ensures
        status == 404 ==> (r matches Ok(v) && v@.len() == 0),
        status != 404 && 200 <= status < 300 ==> (r matches Ok(v) && patch_models(v@) == spec_sort(
            spec_parse_manifest(body@),
        )),
        !(status == 404 || 200 <= status < 300) <==> (r matches Err(
            PatchListError::ManifestFetch(e),
        ) && e == status),
{
    if status == 404 {
        return Ok(Vec::new());
    }
    if status < 200 || status >= 300 {
        return Err(PatchListError::ManifestFetch(status));
    }
    let parsed = parse_patch_list(body);
    Ok(sort_patches(parsed))
}

} // verus!
