//! Helpers the surrounding application uses to recognise and normalise
//! model-file paths handed over on the command line.
//!
//! Everything here works on the characters of the path alone: extension
//! matching is ASCII-case-insensitive on the part of the final path
//! component after its last dot, and command-line normalisation undoes
//! quoting, `file://` prefixes and percent-encoded spaces.  Whether the
//! named file exists is the caller's business.
use vstd::prelude::*;

use vstd::string::StrSliceExecFns;

verus! {

/// A path separator: either slash form is accepted.
pub open spec fn is_path_sep(c: char) -> bool {
    c == '/' || c == '\\'
}

/// Index of the first character of the path's final component: the
/// position right after the last separator, or 0 when there is none.
pub open spec fn file_name_start(s: Seq<char>) -> int
    decreases s.len(),
{
    if s.len() == 0 {
        0
    } else if is_path_sep(s.last()) {
        s.len() as int
    } else {
        file_name_start(s.drop_last())
    }
}

/// The largest index in `(lo, i]` holding a dot, scanning down from `i`.
pub open spec fn last_dot_from(s: Seq<char>, i: int, lo: int) -> Option<int>
    decreases i - lo,
{
    if i <= lo {
        None
    } else if s[i] == '.' {
        Some(i)
    } else {
        last_dot_from(s, i - 1, lo)
    }
}

/// The path's extension: what follows the last dot of the final
/// component, where a dot that starts the component (a hidden file) does
/// not count.  `None` when the component has no such dot.
pub open spec fn extension_of(s: Seq<char>) -> Option<Seq<char>> {
    match last_dot_from(s, s.len() - 1, file_name_start(s)) {
        Some(i) => Some(s.subrange(i + 1, s.len() as int)),
        None => None,
    }
}

/// The character with an ASCII upper-case letter folded to lower case.
pub open spec fn to_lower(c: char) -> char {
    if 65 <= c as u32 && c as u32 <= 90 {
        ((c as u32 + 32) as u8) as char
    } else {
        c
    }
}

/// The sequence with every ASCII upper-case letter folded to lower case.
pub open spec fn lower_seq(s: Seq<char>) -> Seq<char> {
    Seq::new(s.len(), |i: int| to_lower(s[i]))
}

/// The path's extension, case-folded, equals `ext_lower` (itself given in
/// lower case).
pub open spec fn has_extension_ci(s: Seq<char>, ext_lower: Seq<char>) -> bool {
    match extension_of(s) {
        Some(e) => lower_seq(e) == ext_lower,
        None => false,
    }
}

/// The character with an ASCII upper-case letter folded to lower case.
fn to_lower_char(c: char) -> (r: char)
    ensures
        r == to_lower(c),
{
    let u = c as u32;
    if 65 <= u && u <= 90 {
        ((u + 32) as u8) as char
    } else {
        c
    }
}

/// The path's characters, collected for indexed access.
fn chars_of(path: &str) -> (r: Vec<char>)
    ensures
        r@ == path@,
{
    let n = path.unicode_len();
    let mut out: Vec<char> = Vec::new();
    let mut i: usize = 0;
    while i < n
        invariant
            n == path@.len(),
            i <= n,
            out@ == path@.take(i as int),
        decreases n - i,
    {
        let c = path.get_char(i);
        out.push(c);
        proof {
            assert(path@.take(i + 1) =~= path@.take(i as int).push(path@[i as int]));
        }
        i = i + 1;
    }
    proof {
        assert(path@.take(n as int) =~= path@);
    }
    out
}

/// The path's extension as lower-case characters, or `None` when the path
/// has none.
fn extension_lower_chars(path: &str) -> (r: Option<Vec<char>>)
    ensures
        (match r {
            Some(v) => extension_of(path@) matches Some(e) && v@ == lower_seq(e),
            None => extension_of(path@) is None,
        }),
{
    let cs = chars_of(path);
    let n = cs.len();
    proof {
        assert(path@.take(n as int) =~= path@);
    }
    let mut i: usize = n;
    while i > 0 && !(cs[i - 1] == '/' || cs[i - 1] == '\\')
        invariant
            cs@ == path@,
            i <= n,
            n == cs@.len(),
            file_name_start(path@) == file_name_start(path@.take(i as int)),
        decreases i,
    {
        proof {
            assert(path@.take(i as int).drop_last() =~= path@.take(i - 1));
        }
        i = i - 1;
    }
    let name_start = i;
    proof {
        if i == 0 {
            assert(path@.take(0) =~= Seq::<char>::empty());
        } else {
            assert(path@.take(i as int).last() == path@[i - 1]);
        }
        assert(file_name_start(path@) == name_start);
    }
    let mut j: usize = n;
    while j > name_start && j - name_start > 1 && !(cs[j - 1] == '.')
        invariant
            cs@ == path@,
            name_start <= j,
            j <= n,
            n == cs@.len(),
            last_dot_from(path@, n - 1, name_start as int) == last_dot_from(
                path@,
                j - 1,
                name_start as int,
            ),
        decreases j,
    {
        j = j - 1;
    }
    if j <= name_start || j - name_start <= 1 {
        proof {
            assert(last_dot_from(path@, j - 1, name_start as int) is None);
        }
        return None;
    }
    // the dot stands at j - 1; the extension follows it
    proof {
        assert(last_dot_from(path@, n - 1, name_start as int) == Some(j - 1));
    }
    let mut out: Vec<char> = Vec::new();
    let mut t: usize = j;
    while t < n
        invariant
            cs@ == path@,
            j <= t <= n,
            n == cs@.len(),
            out@.len() == t - j,
            forall|u: int| 0 <= u < out@.len() ==> out@[u] == to_lower(path@[j + u]),
        decreases n - t,
    {
        let c = to_lower_char(cs[t]);
        out.push(c);
        t = t + 1;
    }
    proof {
        let e = path@.subrange(j as int, n as int);
        assert(out@ =~= lower_seq(e));
    }
    Some(out)
}

/// The final path component's extension is `yft`, in any letter case.
pub fn is_yft(path: &str) -> (r: bool)
    ensures
        r == has_extension_ci(path@, seq!['y', 'f', 't']),
{
    match extension_lower_chars(path) {
        None => false,
        Some(v) => {
            let hit = v.len() == 3 && v[0] == 'y' && v[1] == 'f' && v[2] == 't';
            proof {
                if hit {
                    assert(v@ =~= seq!['y', 'f', 't']);
                } else {
                    assert(v@ != seq!['y', 'f', 't']);
                }
            }
            hit
        },
    }
}

/// The extension names one of the model formats the application can open.
pub open spec fn is_supported_model_path(s: Seq<char>) -> bool {
    ||| has_extension_ci(s, seq!['y', 'f', 't'])
    ||| has_extension_ci(s, seq!['y', 'd', 'd'])
    ||| has_extension_ci(s, seq!['d', 'f', 'f'])
    ||| has_extension_ci(s, seq!['c', 'l', 'm', 'e', 's', 'h'])
}

/// The final path component's extension, in any letter case, is one of
/// `yft`, `ydd`, `dff` or `clmesh`.
pub fn is_supported_open_model(path: &str) -> (r: bool)
    ensures
        r == is_supported_model_path(path@),
{
    match extension_lower_chars(path) {
        None => false,
        Some(v) => {
            let three = v.len() == 3;
            let hit = (three && v[0] == 'y' && v[1] == 'f' && v[2] == 't') || (three && v[0] == 'y'
                && v[1] == 'd' && v[2] == 'd') || (three && v[0] == 'd' && v[1] == 'f' && v[2]
                == 'f') || (v.len() == 6 && v[0] == 'c' && v[1] == 'l' && v[2] == 'm' && v[3]
                == 'e' && v[4] == 's' && v[5] == 'h');
            proof {
                if v@ =~= seq!['y', 'f', 't'] {
                } else if v@ =~= seq!['y', 'd', 'd'] {
                } else if v@ =~= seq!['d', 'f', 'f'] {
                } else if v@ =~= seq!['c', 'l', 'm', 'e', 's', 'h'] {
                }
            }
            hit
        },
    }
}

/// A character the trims remove: the double quote on the quote pass, any
/// Unicode whitespace character on the whitespace pass.
pub open spec fn is_trim_char(c: char, quote: bool) -> bool {
    if quote {
        c == '"'
    } else {
        is_whitespace_char(c)
    }
}

/// The Unicode whitespace characters, as the standard library's `trim`
/// removes them.
pub open spec fn is_whitespace_char(c: char) -> bool {
    let u = c as u32;
    ||| (9 <= u && u <= 13)
    ||| u == 0x20
    ||| u == 0x85
    ||| u == 0xA0
    ||| u == 0x1680
    ||| (0x2000 <= u && u <= 0x200A)
    ||| u == 0x2028
    ||| u == 0x2029
    ||| u == 0x202F
    ||| u == 0x205F
    ||| u == 0x3000
}

/// First index at or after `i` whose character the trim keeps; the length
/// when there is none.
pub open spec fn first_kept(s: Seq<char>, i: int, quote: bool) -> int
    decreases s.len() - i,
{
    if i < 0 || i >= s.len() {
        s.len() as int
    } else if is_trim_char(s[i], quote) {
        first_kept(s, i + 1, quote)
    } else {
        i
    }
}

/// Index right after the last kept character before `j`; 0 when all of
/// `s.take(j)` is trimmed away.
pub open spec fn last_kept_end(s: Seq<char>, j: int, quote: bool) -> int
    decreases j,
{
    if j <= 0 {
        0
    } else if is_trim_char(s[j - 1], quote) {
        last_kept_end(s, j - 1, quote)
    } else {
        j
    }
}

/// `s` with the trimmed characters removed from both ends.
pub open spec fn trimmed(s: Seq<char>, quote: bool) -> Seq<char> {
    let a = first_kept(s, 0, quote);
    let b = last_kept_end(s, s.len() as int, quote);
    if a >= b {
        Seq::empty()
    } else {
        s.subrange(a, b)
    }
}

/// Whether the character is Unicode whitespace.
fn is_whitespace(c: char) -> (r: bool)
    ensures
        r == is_whitespace_char(c),
{
    let u = c as u32;
    (9 <= u && u <= 13) || u == 0x20 || u == 0x85 || u == 0xA0 || u == 0x1680 || (0x2000 <= u && u
        <= 0x200A) || u == 0x2028 || u == 0x2029 || u == 0x202F || u == 0x205F || u == 0x3000
}

/// Whether the character is removed by the given trim pass.
fn is_trim(c: char, quote: bool) -> (r: bool)
    ensures
        r == is_trim_char(c, quote),
{
    if quote {
        c == '"'
    } else {
        is_whitespace(c)
    }
}

/// The characters with whitespace (or, on the quote pass, double quotes)
/// removed from both ends.
fn trim_chars(v: &Vec<char>, quote: bool) -> (r: Vec<char>)
    ensures
        r@ == trimmed(v@, quote),
{
    let n = v.len();
    let mut a: usize = 0;
    while a < n && is_trim(v[a], quote)
        invariant
            n == v@.len(),
            a <= n,
            first_kept(v@, 0, quote) == first_kept(v@, a as int, quote),
        decreases n - a,
    {
        a = a + 1;
    }
    let mut b: usize = n;
    while b > 0 && is_trim(v[b - 1], quote)
        invariant
            n == v@.len(),
            b <= n,
            last_kept_end(v@, n as int, quote) == last_kept_end(v@, b as int, quote),
        decreases b,
    {
        b = b - 1;
    }
    proof {
        assert(first_kept(v@, 0, quote) == a);
        assert(last_kept_end(v@, n as int, quote) == b);
    }
    let mut out: Vec<char> = Vec::new();
    if a >= b {
        return out;
    }
    let mut t: usize = a;
    while t < b
        invariant
            a <= t <= b,
            b <= v@.len(),
            out@.len() == t - a,
            forall|u: int| 0 <= u < out@.len() ==> out@[u] == v@[a + u],
        decreases b - t,
    {
        let c = v[t];
        out.push(c);
        t = t + 1;
    }
    proof {
        assert(out@ =~= v@.subrange(a as int, b as int));
    }
    out
}

/// The characters start with the seven of `file://`.
pub open spec fn has_file_uri_prefix(s: Seq<char>) -> bool {
    &&& s.len() >= 7
    &&& s[0] == 'f'
    &&& s[1] == 'i'
    &&& s[2] == 'l'
    &&& s[3] == 'e'
    &&& s[4] == ':'
    &&& s[5] == '/'
    &&& s[6] == '/'
}

/// `s` with each `%20` replaced by a space, left to right and without
/// overlap.
pub open spec fn percent20_replaced(s: Seq<char>) -> Seq<char>
    decreases s.len(),
{
    if s.len() < 3 {
        s
    } else if s[0] == '%' && s[1] == '2' && s[2] == '0' {
        seq![' '] + percent20_replaced(s.skip(3))
    } else {
        seq![s[0]] + percent20_replaced(s.skip(1))
    }
}

/// `s` with every forward slash turned into a backslash.
pub open spec fn slashes_to_backslashes(s: Seq<char>) -> Seq<char> {
    Seq::new(
        s.len(),
        |i: int|
            if s[i] == '/' {
                '\\'
            } else {
                s[i]
            },
    )
}

/// What normalising one raw command-line argument yields: the argument
/// with surrounding whitespace and quotes removed; `None` when nothing
/// remains.  A `file://` argument additionally loses the prefix and its
/// percent-encoded spaces, and -- on Windows -- a leading slash before a
/// drive letter, with the remaining slashes turned into backslashes.
pub open spec fn normalized_arg(s: Seq<char>, windows: bool) -> Option<Seq<char>> {
    let t = trimmed(trimmed(s, false), true);
    if t.len() == 0 {
        None
    } else if has_file_uri_prefix(t) {
        let rep = percent20_replaced(t.skip(7));
        if windows {
            let dropped = if rep.len() > 2 && rep[0] == '/' && rep[2] == ':' {
                rep.skip(1)
            } else {
                rep
            };
            Some(slashes_to_backslashes(dropped))
        } else {
            Some(rep)
        }
    } else {
        Some(t)
    }
}

/// Relies on std's `String::push`: it appends exactly the one character.
#[verifier::external_body]
fn push_char(s: &mut String, c: char)
    ensures
        final(s)@ == old(s)@.push(c),
{
    s.push(c);
}

/// A `String` holding exactly the given characters.
fn chars_to_string(v: &Vec<char>) -> (r: String)
    ensures
        r@ == v@,
{
    let mut out = String::new();
    let mut i: usize = 0;
    while i < v.len()
        invariant
            i <= v@.len(),
            out@ == v@.take(i as int),
        decreases v@.len() - i,
    {
        let c = v[i];
        push_char(&mut out, c);
        proof {
            assert(v@.take(i + 1) =~= v@.take(i as int).push(v@[i as int]));
        }
        i = i + 1;
    }
    proof {
        assert(v@.take(v@.len() as int) =~= v@);
    }
    out
}

/// Normalises one raw command-line argument into a usable path, or `None`
/// when nothing remains after trimming.  Surrounding whitespace and double
/// quotes are removed; a `file://` argument loses the prefix and its
/// percent-encoded spaces, and with `windows` set also a leading slash
/// before a drive letter, every remaining slash becoming a backslash.
pub fn normalize_open_file_arg(raw: &str, windows: bool) -> (r: Option<String>)
    ensures
        (match r {
            Some(st) => normalized_arg(raw@, windows) == Some(st@),
            None => normalized_arg(raw@, windows) is None,
        }),
{
    let cs = chars_of(raw);
    let t1 = trim_chars(&cs, false);
    let t = trim_chars(&t1, true);
    if t.len() == 0 {
        return None;
    }
    let prefixed = t.len() >= 7 && t[0] == 'f' && t[1] == 'i' && t[2] == 'l' && t[3] == 'e' && t[4]
        == ':' && t[5] == '/' && t[6] == '/';
    if !prefixed {
        let st = chars_to_string(&t);
        return Some(st);
    }
    let ghost rest_spec = t@.skip(7);
    let mut rep: Vec<char> = Vec::new();
    let mut i: usize = 7;
    proof {
        assert(rest_spec.skip(i - 7) =~= t@.skip(i as int));
    }
    while i < t.len()
        invariant
            7 <= i <= t@.len(),
            rest_spec == t@.skip(7),
            percent20_replaced(rest_spec) == rep@ + percent20_replaced(t@.skip(i as int)),
        decreases t@.len() - i,
    {
        let ghost before = rep@;
        if t.len() - i > 2 && t[i] == '%' && t[i + 1] == '2' && t[i + 2] == '0' {
            rep.push(' ');
            proof {
                assert(t@.skip(i as int).skip(3) =~= t@.skip(i + 3));
                assert(percent20_replaced(t@.skip(i as int)) == seq![' '] + percent20_replaced(
                    t@.skip(i + 3),
                ));
                assert(before + (seq![' '] + percent20_replaced(t@.skip(i + 3))) =~= rep@
                    + percent20_replaced(t@.skip(i + 3)));
            }
            i = i + 3;
        } else {
            let c = t[i];
            rep.push(c);
            proof {
                assert(t@.skip(i as int).skip(1) =~= t@.skip(i + 1));
                assert(t@.skip(i as int)[0] == t@[i as int]);
                if t@.skip(i as int).len() < 3 {
                    assert(percent20_replaced(t@.skip(i as int)) == t@.skip(i as int));
                    assert(t@.skip(i as int) =~= seq![t@[i as int]] + percent20_replaced(
                        t@.skip(i + 1),
                    ));
                } else {
                    assert(percent20_replaced(t@.skip(i as int)) == seq![t@[i as int]]
                        + percent20_replaced(t@.skip(i + 1)));
                }
                assert(before + (seq![t@[i as int]] + percent20_replaced(t@.skip(i + 1))) =~= rep@
                    + percent20_replaced(t@.skip(i + 1)));
            }
            i = i + 1;
        }
    }
    proof {
        assert(t@.skip(t@.len() as int) =~= Seq::<char>::empty());
        assert(rep@ + Seq::<char>::empty() =~= rep@);
        assert(rep@ == percent20_replaced(rest_spec));
    }
    if !windows {
        let st = chars_to_string(&rep);
        return Some(st);
    }
    let dropped_lead = rep.len() > 2 && rep[0] == '/' && rep[2] == ':';
    let start: usize = if dropped_lead {
        1
    } else {
        0
    };
    let ghost dropped = if dropped_lead {
        rep@.skip(1)
    } else {
        rep@
    };
    let mut out: Vec<char> = Vec::new();
    let mut k: usize = start;
    while k < rep.len()
        invariant
            start <= k <= rep@.len(),
            start == (if dropped_lead {
                1int
            } else {
                0int
            }),
            dropped == (if dropped_lead {
                rep@.skip(1)
            } else {
                rep@
            }),
            out@.len() == k - start,
            forall|u: int|
                0 <= u < out@.len() ==> out@[u] == (if dropped[u] == '/' {
                    '\\'
                } else {
                    dropped[u]
                }),
        decreases rep@.len() - k,
    {
        let c = rep[k];
        if c == '/' {
            out.push('\\');
        } else {
            out.push(c);
        }
        k = k + 1;
    }
    proof {
        assert(out@ =~= slashes_to_backslashes(dropped));
    }
    let st = chars_to_string(&out);
    Some(st)
}

/// The first argument after the program name that normalises to a path
/// with a supported model extension; later arguments are not looked at
/// once one matches.
pub open spec fn extracted_open_file(args: Seq<Seq<char>>, i: int, windows: bool) -> Option<
    Seq<char>,
>
    decreases args.len() - i,
{
    if i < 1 || i >= args.len() {
        None
    } else {
        match normalized_arg(args[i], windows) {
            Some(c) => if is_supported_model_path(c) {
                Some(c)
            } else {
                extracted_open_file(args, i + 1, windows)
            },
            None => extracted_open_file(args, i + 1, windows),
        }
    }
}

/// Picks from the command-line arguments (the program name first among
/// them) the first that, once normalised, names a supported model file.
/// Whether that file actually exists on disk is left to the caller.
pub fn extract_open_file_arg(args: &[String], windows: bool) -> (r: Option<String>)
    ensures
        (match r {
            Some(st) => extracted_open_file(args.deep_view(), 1, windows) == Some(st@),
            None => extracted_open_file(args.deep_view(), 1, windows) is None,
        }),
{
    let ghost dv = args.deep_view();
    let mut i: usize = 1;
    while i < args.len()
        invariant
            dv == args.deep_view(),
            1 <= i,
            extracted_open_file(dv, 1, windows) == extracted_open_file(dv, i as int, windows),
        decreases args@.len() - i,
    {
        let arg = &args[i];
        proof {
            assert(dv[i as int] == arg@);
        }
        if let Some(candidate) = normalize_open_file_arg(arg.as_str(), windows) {
            if is_supported_open_model(candidate.as_str()) {
                return Some(candidate);
            }
        }
        i = i + 1;
    }
    None
}

} // verus!
