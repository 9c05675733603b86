//! Flash projects: the `flash.toml` manifest that names the app and its entry
//! screen.

use vstd::prelude::*;
use vstd::string::{StrSliceExecFns, StringExecFns};

verus! {

/// A project as read from its manifest. Paths are kept as text.
#[derive(Clone, Debug)]
pub struct FlashProject {
    pub name: String,
    pub entry: String,
    pub root: String,
}

/// The characters Rust's `trim` strips: those with the Unicode `White_Space`
/// property.
pub open spec fn is_ws(c: char) -> bool {
    ||| c == '\t' || c == '\n' || c == '\u{0B}' || c == '\u{0C}' || c == '\r' || c == ' '
    ||| c == '\u{85}' || c == '\u{A0}' || c == '\u{1680}'
    ||| ('\u{2000}' <= c && c <= '\u{200A}')
    ||| c == '\u{2028}' || c == '\u{2029}' || c == '\u{202F}' || c == '\u{205F}' || c == '\u{3000}'
}

/// The characters stripped from both ends: quotes, or whitespace.
pub open spec fn strip_class(c: char, quotes: bool) -> bool {
    if quotes {
        c == '"'
    } else {
        is_ws(c)
    }
}

pub open spec fn lead_len(s: Seq<char>, quotes: bool) -> nat
    decreases s.len(),
{
    if s.len() > 0 && strip_class(s[0], quotes) {
        1 + lead_len(s.drop_first(), quotes)
    } else {
        0
    }
}

pub open spec fn trail_len(s: Seq<char>, quotes: bool) -> nat
    decreases s.len(),
{
    if s.len() > 0 && strip_class(s.last(), quotes) {
        1 + trail_len(s.drop_last(), quotes)
    } else {
        0
    }
}

/// `s` without its leading and trailing characters of the class: `trim` for
/// whitespace, `trim_matches('"')` for quotes.
pub open spec fn strip(s: Seq<char>, quotes: bool) -> Seq<char> {
    let rest = s.subrange(lead_len(s, quotes) as int, s.len() as int);
    rest.subrange(0, rest.len() - trail_len(rest, quotes))
}

/// Where the line starting at `start` ends: the next newline, or the end.
pub open spec fn line_end(t: Seq<char>, start: int) -> int
    decreases t.len() - start,
{
    if start < 0 || start >= t.len() {
        t.len() as int
    } else if t[start] == '\n' {
        start
    } else {
        line_end(t, start + 1)
    }
}

/// The position of the first `=`, or the length.
pub open spec fn first_eq(l: Seq<char>) -> int
    decreases l.len(),
{
    if l.len() == 0 {
        0
    } else if l[0] == '=' {
        0
    } else {
        1 + first_eq(l.drop_first())
    }
}

pub open spec fn is_prefix(p: Seq<char>, s: Seq<char>) -> bool {
    p.len() <= s.len() && s.subrange(0, p.len() as int) == p
}

/// A trimmed line sets `key`: it starts with `key =` or `key=`.
pub open spec fn key_line(line: Seq<char>, key: Seq<char>) -> bool {
    is_prefix(key + seq![' ', '='], line) || is_prefix(key + seq!['='], line)
}

/// The value of a line: what follows its first `=`, trimmed, without
/// surrounding quotes.
pub open spec fn line_value(line: Seq<char>) -> Seq<char> {
    strip(strip(line.subrange(first_eq(line) + 1, line.len() as int), false), true)
}

/// The value of the first line from `start` on that sets `key`.
pub open spec fn toml_value_from(t: Seq<char>, start: int, key: Seq<char>) -> Option<Seq<char>>
    decreases t.len() - start,
{
    if start < 0 || start >= t.len() {
        None
    } else {
        let end = line_end(t, start);
        let line = strip(t.subrange(start, end), false);
        proof {
            lemma_line_end_bounds(t, start);
        }
        if key_line(line, key) {
            Some(line_value(line))
        } else if end >= t.len() {
            None
        } else {
            toml_value_from(t, end + 1, key)
        }
    }
}

pub proof fn lemma_line_end_bounds(t: Seq<char>, start: int)
    requires
        0 <= start <= t.len(),
    ensures
        start <= line_end(t, start) <= t.len(),
        line_end(t, start) < t.len() ==> t[line_end(t, start)] == '\n',
        forall|k: int| start <= k < line_end(t, start) ==> t[k] != '\n',
    decreases t.len() - start,
{
    if start < t.len() && t[start] != '\n' {
        lemma_line_end_bounds(t, start + 1);
    }
}

proof fn lemma_lead_len(s: Seq<char>, quotes: bool, k: int)
    requires
        0 <= k <= s.len(),
        forall|i: int| 0 <= i < k ==> strip_class(#[trigger] s[i], quotes),
        k == s.len() || !strip_class(s[k], quotes),
    ensures
        lead_len(s, quotes) == k,
    decreases k,
{
    if k > 0 {
        let r = s.drop_first();
        assert forall|i: int| 0 <= i < k - 1 implies strip_class(#[trigger] r[i], quotes) by {
            assert(r[i] == s[i + 1]);
        }
        if k < s.len() {
            assert(r[k - 1] == s[k]);
        }
        lemma_lead_len(r, quotes, k - 1);
    }
}

proof fn lemma_trail_len(s: Seq<char>, quotes: bool, k: int)
    requires
        0 <= k <= s.len(),
        forall|i: int| s.len() - k <= i < s.len() ==> strip_class(#[trigger] s[i], quotes),
        k == s.len() || !strip_class(s[s.len() - 1 - k], quotes),
    ensures
        trail_len(s, quotes) == k,
    decreases k,
{
    if k > 0 {
        let r = s.drop_last();
        assert forall|i: int| r.len() - (k - 1) <= i < r.len() implies strip_class(#[trigger] r[i], quotes) by {
            assert(r[i] == s[i]);
        }
        if k < s.len() {
            assert(r[r.len() - 1 - (k - 1)] == s[s.len() - 1 - k]);
        }
        assert(strip_class(s[s.len() - 1], quotes));
        lemma_trail_len(r, quotes, k - 1);
    }
}

proof fn lemma_first_eq(l: Seq<char>, k: int)
    requires
        0 <= k <= l.len(),
        forall|i: int| 0 <= i < k ==> l[i] != '=',
        k == l.len() || l[k] == '=',
    ensures
        first_eq(l) == k,
    decreases k,
{
    if k > 0 {
        let r = l.drop_first();
        assert forall|i: int| 0 <= i < k - 1 implies r[i] != '=' by {
            assert(r[i] == l[i + 1]);
        }
        if k < l.len() {
            assert(r[k - 1] == l[k]);
        }
        lemma_first_eq(r, k - 1);
    }
}

fn is_ws_char(c: char) -> (r: bool)
    ensures
        r == is_ws(c),
{
    c == '\t' || c == '\n' || c == '\u{0B}' || c == '\u{0C}' || c == '\r' || c == ' ' || c == '\u{85}' || c
        == '\u{A0}' || c == '\u{1680}' || ('\u{2000}' <= c && c <= '\u{200A}') || c == '\u{2028}' || c
        == '\u{2029}' || c == '\u{202F}' || c == '\u{205F}' || c == '\u{3000}'
}

fn in_class(c: char, quotes: bool) -> (r: bool)
    ensures
        r == strip_class(c, quotes),
{
    if quotes {
        c == '"'
    } else {
        is_ws_char(c)
    }
}

/// The characters of `s`.
pub(crate) fn chars_of(s: &str) -> (v: Vec<char>)
    ensures
        v@ == s@,
{
    let n = s.unicode_len();
    let mut v: Vec<char> = Vec::new();
    let mut i: usize = 0;
    while i < n
        invariant
            n == s@.len(),
            i <= n,
            v@ == s@.subrange(0, i as int),
        decreases n - i,
    {
        v.push(s.get_char(i));
        i = i + 1;
        assert(v@ =~= s@.subrange(0, i as int));
    }
    assert(v@ =~= s@);
    v
}

/// The bounds of `v[lo..hi]` stripped of the class at both ends.
fn strip_range(v: &Vec<char>, lo: usize, hi: usize, quotes: bool) -> (r: (usize, usize))
    requires
        lo <= hi <= v@.len(),
    ensures
        lo <= r.0 <= r.1 <= hi,
        v@.subrange(r.0 as int, r.1 as int) == strip(v@.subrange(lo as int, hi as int), quotes),
{
    let ghost s = v@.subrange(lo as int, hi as int);
    let mut a = lo;
    while a < hi && in_class(v[a], quotes)
        invariant
            lo <= a <= hi <= v@.len(),
            forall|i: int| lo <= i < a ==> strip_class(#[trigger] v@[i], quotes),
        decreases hi - a,
    {
        a = a + 1;
    }
    proof {
        assert forall|i: int| 0 <= i < a - lo implies strip_class(#[trigger] s[i], quotes) by {
            assert(s[i] == v@[lo + i]);
        }
        if a < hi {
            assert(s[a - lo] == v@[a as int]);
        }
        lemma_lead_len(s, quotes, a - lo);
    }
    let ghost rest = s.subrange(a - lo, s.len() as int);
    assert(rest =~= v@.subrange(a as int, hi as int));
    let mut b = hi;
    while b > a && in_class(v[b - 1], quotes)
        invariant
            lo <= a <= b <= hi <= v@.len(),
            forall|i: int| b <= i < hi ==> strip_class(#[trigger] v@[i], quotes),
        decreases b - a,
    {
        b = b - 1;
    }
    proof {
        assert forall|i: int| rest.len() - (hi - b) <= i < rest.len() implies strip_class(#[trigger] rest[i], quotes) by {
            assert(rest[i] == v@[a + i]);
        }
        if b > a {
            assert(rest[rest.len() - 1 - (hi - b)] == v@[b - 1]);
        }
        lemma_trail_len(rest, quotes, hi - b);
        assert(v@.subrange(a as int, b as int) =~= rest.subrange(0, rest.len() - (hi - b)));
    }
    (a, b)
}

fn string_of(v: &Vec<char>, lo: usize, hi: usize) -> (s: String)
    requires
        lo <= hi <= v@.len(),
    ensures
        s@ == v@.subrange(lo as int, hi as int),
{
    let mut s = String::new();
    let mut i = lo;
    while i < hi
        invariant
            lo <= i <= hi <= v@.len(),
            s@ == v@.subrange(lo as int, i as int),
        decreases hi - i,
    {
        s.push(v[i]);
        i = i + 1;
        assert(s@ =~= v@.subrange(lo as int, i as int));
    }
    s
}

/// `p` is a prefix of `v[lo..hi]`.
fn has_prefix(v: &Vec<char>, lo: usize, hi: usize, p: &Vec<char>) -> (r: bool)
    requires
        lo <= hi <= v@.len(),
    ensures
        r == is_prefix(p@, v@.subrange(lo as int, hi as int)),
{
    if p.len() > hi - lo {
        return false;
    }
    let mut i: usize = 0;
    while i < p.len()
        invariant
            p@.len() <= hi - lo,
            lo <= hi <= v@.len(),
            i <= p@.len(),
            forall|k: int| 0 <= k < i ==> v@[lo + k] == p@[k],
        decreases p@.len() - i,
    {
        if v[lo + i] != p[i] {
            assert(v@.subrange(lo as int, hi as int).subrange(0, p@.len() as int)[i as int] != p@[i as int]);
            return false;
        }
        i = i + 1;
    }
    assert(v@.subrange(lo as int, hi as int).subrange(0, p@.len() as int) =~= p@);
    true
}

/// The value of the first line of `text` that sets `key` (`key = value` or
/// `key=value`), trimmed and without surrounding quotes.
pub fn parse_toml_string(text: &str, key: &str) -> (r: Option<String>)
    ensures
        match toml_value_from(text@, 0, key@) {
            Some(v) => r is Some && r->0@ == v,
            None => r is None,
        },
{
    let t = chars_of(text);
    let k = chars_of(key);
    let mut needle = k.clone();
    needle.push(' ');
    needle.push('=');
    let mut needle_q = k.clone();
    needle_q.push('=');
    assert(needle@ =~= key@ + seq![' ', '=']);
    assert(needle_q@ =~= key@ + seq!['=']);
    let n = t.len();
    let mut start: usize = 0;
    while start < n
        invariant
            n == t@.len(),
            t@ == text@,
            needle@ == key@ + seq![' ', '='],
            needle_q@ == key@ + seq!['='],
            start <= n,
            toml_value_from(text@, 0, key@) == toml_value_from(text@, start as int, key@),
        decreases n - start,
    {
        let mut end = start;
        while end < n && t[end] != '\n'
            invariant
                start <= end <= n,
                n == t@.len(),
                forall|i: int| start <= i < end ==> t@[i] != '\n',
            decreases n - end,
        {
            end = end + 1;
        }
        proof {
            lemma_line_end_bounds(t@, start as int);
            assert(line_end(t@, start as int) == end) by {
                lemma_line_end_exact(t@, start as int, end as int);
            }
        }
        let (a, b) = strip_range(&t, start, end, false);
        let ghost line = t@.subrange(a as int, b as int);
        if has_prefix(&t, a, b, &needle) || has_prefix(&t, a, b, &needle_q) {
            assert(key_line(line, key@));
            let mut e = a;
            while e < b && t[e] != '='
                invariant
                    a <= e <= b <= n,
                    n == t@.len(),
                    forall|i: int| a <= i < e ==> t@[i] != '=',
                decreases b - e,
            {
                e = e + 1;
            }
            proof {
                assert forall|i: int| 0 <= i < e - a implies line[i] != '=' by {
                    assert(line[i] == t@[a + i]);
                }
                if e < b {
                    assert(line[e - a] == t@[e as int]);
                }
                lemma_first_eq(line, e - a);
            }
            if e >= b {
                proof {
                    assert(is_prefix(key@ + seq![' ', '='], line) || is_prefix(key@ + seq!['='], line));
                    if is_prefix(key@ + seq![' ', '='], line) {
                        let p = key@ + seq![' ', '='];
                        assert(line.subrange(0, p.len() as int)[p.len() - 1] == '=');
                        assert(line[p.len() - 1] == '=');
                    } else {
                        let p = key@ + seq!['='];
                        assert(line.subrange(0, p.len() as int)[p.len() - 1] == '=');
                        assert(line[p.len() - 1] == '=');
                    }
                }
                return None;
            }
            let (c, d) = strip_range(&t, e + 1, b, false);
            let ghost inner = t@.subrange(c as int, d as int);
            let (f, g) = strip_range(&t, c, d, true);
            proof {
                assert(line.subrange(first_eq(line) + 1, line.len() as int) =~= t@.subrange(e + 1, b as int));
            }
            return Some(string_of(&t, f, g));
        }
        if end >= n {
            return None;
        }
        start = end + 1;
    }
    None
}

proof fn lemma_line_end_exact(t: Seq<char>, start: int, end: int)
    requires
        0 <= start <= end <= t.len(),
        forall|i: int| start <= i < end ==> t[i] != '\n',
        end == t.len() || t[end] == '\n',
    ensures
        line_end(t, start) == end,
    decreases end - start,
{
    if start < end {
        lemma_line_end_exact(t, start + 1, end);
    }
}

/// The manifest `flash create` writes for a new app named `name`.
pub open spec fn manifest_text(name: Seq<char>) -> Seq<char> {
    "# Flash app manifest — https://github.com/Anu-Code07/flash\n\n[app]\nname = \""@ + name
        + "\"\nentry = \"ui/screens/home.ui\"\n\n[sdk]\n# Set by `install.sh` — path to Flash SDK clone\npath = \"${FLASH_SDK}\"\n\n[targets.ios]\ntriple = \"aarch64-apple-ios\"\nstatic_lib = \"platform/ios/build/libflash_runtime.a\"\n\n[targets.android]\ntriple = \"aarch64-linux-android\"\nshared_lib = \"platform/android/app/src/main/jniLibs/arm64-v8a/libflash_runtime.so\"\n\n[crates]\npresentation = \"crates/presentation\"\napplication = \"crates/application\"\ninfrastructure = \"crates/infrastructure\"\n"@
}

/// The head of the manifest, up to the name.
pub open spec fn manifest_head() -> Seq<char> {
    "# Flash app manifest — https://github.com/Anu-Code07/flash\n\n[app]\nname = \""@
}

/// The tail of the manifest, after the name.
pub open spec fn manifest_tail() -> Seq<char> {
    "\"\nentry = \"ui/screens/home.ui\"\n\n[sdk]\n# Set by `install.sh` — path to Flash SDK clone\npath = \"${FLASH_SDK}\"\n\n[targets.ios]\ntriple = \"aarch64-apple-ios\"\nstatic_lib = \"platform/ios/build/libflash_runtime.a\"\n\n[targets.android]\ntriple = \"aarch64-linux-android\"\nshared_lib = \"platform/android/app/src/main/jniLibs/arm64-v8a/libflash_runtime.so\"\n\n[crates]\npresentation = \"crates/presentation\"\napplication = \"crates/application\"\ninfrastructure = \"crates/infrastructure\"\n"@
}

/// A line of `t` from `start` to the newline at `end` that does not set
/// `key` is passed over.
proof fn lemma_skip_line(t: Seq<char>, start: int, end: int, key: Seq<char>)
    requires
        0 <= start <= end < t.len(),
        line_end(t, start) == end,
        !key_line(strip(t.subrange(start, end), false), key),
    ensures
        toml_value_from(t, start, key) == toml_value_from(t, end + 1, key),
{
}

/// Where a line of `a + b` that starts inside `b` ends.
proof fn lemma_line_end_shift(a: Seq<char>, b: Seq<char>, j: int)
    requires
        0 <= j <= b.len(),
    ensures
        line_end(a + b, a.len() + j) == a.len() + line_end(b, j),
    decreases b.len() - j,
{
    if j < b.len() {
        assert((a + b)[a.len() + j] == b[j]);
        if b[j] != '\n' {
            lemma_line_end_shift(a, b, j + 1);
        }
    }
}

/// A line that starts with neither `key =` nor `key=` does not set `key`.
proof fn lemma_not_key_line(line: Seq<char>, key: Seq<char>)
    requires
        key.len() > 0,
        line.len() > 0 ==> line[0] != key[0],
    ensures
        !key_line(line, key),
{
    if is_prefix(key + seq![' ', '='], line) {
        assert(line.subrange(0, key.len() + 2int)[0] == (key + seq![' ', '='])[0]);
    }
    if is_prefix(key + seq!['='], line) {
        assert(line.subrange(0, key.len() + 1int)[0] == (key + seq!['='])[0]);
    }
}

/// A line that neither starts nor ends with whitespace is its own trim.
proof fn lemma_strip_none(l: Seq<char>, quotes: bool)
    requires
        l.len() > 0,
        !strip_class(l[0], quotes),
        !strip_class(l.last(), quotes),
    ensures
        strip(l, quotes) == l,
{
    lemma_lead_len(l, quotes, 0);
    assert(l.subrange(0, l.len() as int) =~= l);
    lemma_trail_len(l, quotes, 0);
    assert(l.subrange(0, l.len() as int) =~= l);
}

proof fn lemma_manifest_parts(name: Seq<char>)
    ensures
        manifest_text(name) == manifest_head() + name + manifest_tail(),
        manifest_head().len() == 74,
        manifest_tail().len() > 31,
{
    reveal_strlit("# Flash app manifest — https://github.com/Anu-Code07/flash\n\n[app]\nname = \"");
    reveal_strlit("\"\nentry = \"ui/screens/home.ui\"\n\n[sdk]\n# Set by `install.sh` — path to Flash SDK clone\npath = \"${FLASH_SDK}\"\n\n[targets.ios]\ntriple = \"aarch64-apple-ios\"\nstatic_lib = \"platform/ios/build/libflash_runtime.a\"\n\n[targets.android]\ntriple = \"aarch64-linux-android\"\nshared_lib = \"platform/android/app/src/main/jniLibs/arm64-v8a/libflash_runtime.so\"\n\n[crates]\npresentation = \"crates/presentation\"\napplication = \"crates/application\"\ninfrastructure = \"crates/infrastructure\"\n");
}

/// The first three lines of a manifest set no key.
#[verifier::rlimit(40)]
proof fn lemma_manifest_head_lines(name: Seq<char>, key: Seq<char>)
    requires
        key.len() > 0,
        key[0] != '#' && key[0] != '[',
    ensures
        toml_value_from(manifest_text(name), 0, key) == toml_value_from(manifest_text(name), 66, key),
{
    lemma_manifest_parts(name);
    let h = manifest_head();
    let t = manifest_text(name);
    reveal_strlit("# Flash app manifest — https://github.com/Anu-Code07/flash\n\n[app]\nname = \"");
    assert forall|i: int| 0 <= i < 74 implies t[i] == h[i] by {}
    assert(line_end(t, 0) == 58) by {
        reveal_with_fuel(line_end, 60);
    }
    let l1 = t.subrange(0, 58);
    assert(l1[0] == h[0] && l1[57] == h[57]);
    lemma_strip_none(l1, false);
    lemma_not_key_line(l1, key);
    lemma_skip_line(t, 0, 58, key);
    assert(t[59] == h[59]);
    let l2 = t.subrange(59, 59);
    assert(strip(l2, false) =~= Seq::<char>::empty());
    lemma_not_key_line(strip(l2, false), key);
    lemma_skip_line(t, 59, 59, key);
    assert(line_end(t, 60) == 65) by {
        reveal_with_fuel(line_end, 10);
    }
    let l3 = t.subrange(60, 65);
    assert(l3[0] == h[60] && l3[4] == h[64]);
    lemma_strip_none(l3, false);
    lemma_not_key_line(l3, key);
    lemma_skip_line(t, 60, 65, key);
}

/// The fourth line of a manifest holds the name.
#[verifier::rlimit(40)]
proof fn lemma_manifest_name_line(name: Seq<char>)
    requires
        forall|i: int| 0 <= i < name.len() ==> name[i] != '\n',
        name.len() > 0 ==> name[0] != '"' && name.last() != '"',
    ensures
        line_end(manifest_text(name), 66) == 75 + name.len(),
        strip(manifest_text(name).subrange(66, 75 + name.len() as int), false) == seq!['n', 'a', 'm', 'e', ' ', '=', ' ', '"'] + name
            + seq!['"'],
{
    lemma_manifest_parts(name);
    let h = manifest_head();
    let tl = manifest_tail();
    let t = manifest_text(name);
    let n = name.len() as int;
    reveal_strlit("# Flash app manifest — https://github.com/Anu-Code07/flash\n\n[app]\nname = \"");
    reveal_strlit("\"\nentry = \"ui/screens/home.ui\"\n\n[sdk]\n# Set by `install.sh` — path to Flash SDK clone\npath = \"${FLASH_SDK}\"\n\n[targets.ios]\ntriple = \"aarch64-apple-ios\"\nstatic_lib = \"platform/ios/build/libflash_runtime.a\"\n\n[targets.android]\ntriple = \"aarch64-linux-android\"\nshared_lib = \"platform/android/app/src/main/jniLibs/arm64-v8a/libflash_runtime.so\"\n\n[crates]\npresentation = \"crates/presentation\"\napplication = \"crates/application\"\ninfrastructure = \"crates/infrastructure\"\n");
    assert forall|i: int| 0 <= i < 74 implies t[i] == h[i] by {}
    assert(line_end(t, 66) == line_end(t, 74)) by {
        reveal_with_fuel(line_end, 10);
    }
    assert forall|i: int| 74 <= i < 75 + n implies t[i] != '\n' by {
        if i < 74 + n {
            assert(t[i] == name[i - 74]);
        } else {
            assert(t[i] == tl[0]);
        }
    }
    assert(t[75 + n] == tl[1]);
    lemma_line_end_exact(t, 74, 75 + n);
    let ln = t.subrange(66, 75 + n);
    assert(ln =~= seq!['n', 'a', 'm', 'e', ' ', '=', ' ', '"'] + name + seq!['"']);
    lemma_strip_none(ln, false);
}

/// The value of the name line is the name.
#[verifier::rlimit(40)]
proof fn lemma_name_line_value(name: Seq<char>)
    requires
        name.len() > 0 ==> name[0] != '"' && name.last() != '"',
    ensures
        key_line(seq!['n', 'a', 'm', 'e', ' ', '=', ' ', '"'] + name + seq!['"'], "name"@),
        !key_line(seq!['n', 'a', 'm', 'e', ' ', '=', ' ', '"'] + name + seq!['"'], "entry"@),
        line_value(seq!['n', 'a', 'm', 'e', ' ', '=', ' ', '"'] + name + seq!['"']) == name,
{
    let n = name.len() as int;
    let ln = seq!['n', 'a', 'm', 'e', ' ', '=', ' ', '"'] + name + seq!['"'];
    reveal_strlit("name");
    reveal_strlit("entry");
    assert(ln.subrange(0, 6) =~= "name"@ + seq![' ', '=']);
    lemma_not_key_line(ln, "entry"@);
    lemma_first_eq(ln, 5);
    let v0 = ln.subrange(6, ln.len() as int);
    assert(v0 =~= seq![' ', '"'] + name + seq!['"']);
    lemma_lead_len(v0, false, 1);
    let r0 = v0.subrange(1, v0.len() as int);
    assert(r0 =~= seq!['"'] + name + seq!['"']);
    lemma_trail_len(r0, false, 0);
    assert(r0.subrange(0, r0.len() as int) =~= r0);
    assert(strip(v0, false) == r0);
    if n > 0 {
        assert(r0[1] == name[0]);
        lemma_lead_len(r0, true, 1);
        let r1 = r0.subrange(1, r0.len() as int);
        assert(r1 =~= name + seq!['"']);
        assert(r1[r1.len() - 2] == name.last());
        lemma_trail_len(r1, true, 1);
        assert(r1.subrange(0, r1.len() - 1) =~= name);
    } else {
        lemma_lead_len(r0, true, 2);
        let r1 = r0.subrange(2, r0.len() as int);
        assert(r1 =~= Seq::<char>::empty());
        lemma_trail_len(r1, true, 0);
        assert(r1.subrange(0, 0) =~= name);
    }
}

/// The fifth line of a manifest sets the entry to the default screen.
#[verifier::rlimit(40)]
proof fn lemma_manifest_entry_line(name: Seq<char>)
    ensures
        toml_value_from(manifest_text(name), 76 + name.len() as int, "entry"@) == Some("ui/screens/home.ui"@),
{
    lemma_manifest_parts(name);
    let tl = manifest_tail();
    let t = manifest_text(name);
    let n = name.len() as int;
    let hn = manifest_head() + name;
    reveal_strlit("\"\nentry = \"ui/screens/home.ui\"\n\n[sdk]\n# Set by `install.sh` — path to Flash SDK clone\npath = \"${FLASH_SDK}\"\n\n[targets.ios]\ntriple = \"aarch64-apple-ios\"\nstatic_lib = \"platform/ios/build/libflash_runtime.a\"\n\n[targets.android]\ntriple = \"aarch64-linux-android\"\nshared_lib = \"platform/android/app/src/main/jniLibs/arm64-v8a/libflash_runtime.so\"\n\n[crates]\npresentation = \"crates/presentation\"\napplication = \"crates/application\"\ninfrastructure = \"crates/infrastructure\"\n");
    assert(t == hn + tl);
    assert(line_end(tl, 2) == 30) by {
        reveal_with_fuel(line_end, 32);
    }
    lemma_line_end_shift(hn, tl, 2);
    reveal_strlit("entry = \"ui/screens/home.ui\"");
    reveal_strlit("entry");
    reveal_strlit("ui/screens/home.ui");
    let le = t.subrange(76 + n, 104 + n);
    assert(le =~= tl.subrange(2, 30));
    assert(le =~= "entry = \"ui/screens/home.ui\""@);
    lemma_strip_none(le, false);
    assert(le.subrange(0, 7) =~= "entry"@ + seq![' ', '=']);
    assert(key_line(le, "entry"@));
    lemma_first_eq(le, 6);
    let w0 = le.subrange(7, le.len() as int);
    lemma_lead_len(w0, false, 1);
    let w1 = w0.subrange(1, w0.len() as int);
    lemma_trail_len(w1, false, 0);
    assert(w1.subrange(0, w1.len() as int) =~= w1);
    lemma_lead_len(w1, true, 1);
    let w2 = w1.subrange(1, w1.len() as int);
    lemma_trail_len(w2, true, 1);
    assert(w2.subrange(0, w2.len() - 1) =~= "ui/screens/home.ui"@);
}

/// A manifest written for `name` reads back: its `name` is `name` and its
/// `entry` the default screen, for a name without a newline that neither
/// starts nor ends with a quote.
pub proof fn lemma_manifest_reads_back(name: Seq<char>)
    requires
        forall|i: int| 0 <= i < name.len() ==> name[i] != '\n',
        name.len() > 0 ==> name[0] != '"' && name.last() != '"',
    ensures
        toml_value_from(manifest_text(name), 0, "name"@) == Some(name),
        toml_value_from(manifest_text(name), 0, "entry"@) == Some("ui/screens/home.ui"@),
{
    let t = manifest_text(name);
    let n = name.len() as int;
    reveal_strlit("name");
    reveal_strlit("entry");
    lemma_manifest_parts(name);
    lemma_manifest_head_lines(name, "name"@);
    lemma_manifest_head_lines(name, "entry"@);
    lemma_manifest_name_line(name);
    lemma_name_line_value(name);
    lemma_skip_line(t, 66, 75 + n, "entry"@);
    lemma_manifest_entry_line(name);
}

/// The manifest for a new app named `name`.
pub fn flash_toml(name: &str) -> (s: String)
    ensures
        s@ == manifest_text(name@),
{
    let mut s = String::new();
    s.append("# Flash app manifest — https://github.com/Anu-Code07/flash\n\n[app]\nname = \"");
    s.append(name);
    s.append(
        "\"\nentry = \"ui/screens/home.ui\"\n\n[sdk]\n# Set by `install.sh` — path to Flash SDK clone\npath = \"${FLASH_SDK}\"\n\n[targets.ios]\ntriple = \"aarch64-apple-ios\"\nstatic_lib = \"platform/ios/build/libflash_runtime.a\"\n\n[targets.android]\ntriple = \"aarch64-linux-android\"\nshared_lib = \"platform/android/app/src/main/jniLibs/arm64-v8a/libflash_runtime.so\"\n\n[crates]\npresentation = \"crates/presentation\"\napplication = \"crates/application\"\ninfrastructure = \"crates/infrastructure\"\n",
    );
    s
}

/// The project built from a manifest's text: its `name` (default `app`) and
/// `entry` (default `ui/screens/home.ui`), at `root`.
pub fn project_from_manifest(text: &str, root: String) -> (p: FlashProject)
    ensures
        p.name@ == (match toml_value_from(text@, 0, "name"@) {
            Some(v) => v,
            None => "app"@,
        }),
        p.entry@ == (match toml_value_from(text@, 0, "entry"@) {
            Some(v) => v,
            None => "ui/screens/home.ui"@,
        }),
        p.root@ == root@,
{
    let name = match parse_toml_string(text, "name") {
        Some(v) => v,
        None => String::from_str("app"),
    };
    let entry = match parse_toml_string(text, "entry") {
        Some(v) => v,
        None => String::from_str("ui/screens/home.ui"),
    };
    FlashProject { name, entry, root }
}

} // verus!
