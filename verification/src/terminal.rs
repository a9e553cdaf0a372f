use vstd::prelude::*;
use vstd::string::StrSliceExecFns;

verus! {

/// `needle` occurs in `hay`.
pub open spec fn has_infix(hay: Seq<char>, needle: Seq<char>) -> bool {
    exists|i: int| 0 <= i <= hay.len() - needle.len() && #[trigger] hay.subrange(i, i + needle.len()) == needle
}

/// The lower-case form of a text as Rust's `str::to_lowercase` gives it
/// (Unicode's case mapping, a function of the text alone).
pub uninterp spec fn lowercase(s: Seq<char>) -> Seq<char>;

/// Calls `str::to_lowercase`, whose result is named `lowercase`.
#[verifier::external_body]
fn to_lowercase(s: &str) -> (r: String)
    ensures
        r@ == lowercase(s@),
{
    s.to_lowercase()
}

/// Whether `a` and `b` hold the same characters.
pub fn same_text(a: &str, b: &str) -> (r: bool)
    ensures
        r == (a@ == b@),
{
    let n = a.unicode_len();
    if n != b.unicode_len() {
        return false;
    }
    let mut i: usize = 0;
    while i < n
        invariant
            n == a@.len(),
            n == b@.len(),
            i <= n,
            forall|j: int| 0 <= j < i ==> a@[j] == b@[j],
        decreases n - i,
    {
        if a.get_char(i) != b.get_char(i) {
            return false;
        }
        i = i + 1;
    }
    assert(a@ =~= b@);
    true
}

/// Whether `needle` occurs in `hay`.
pub fn contains_text(hay: &str, needle: &str) -> (r: bool)
    ensures
        r == has_infix(hay@, needle@),
{
    let n = hay.unicode_len();
    let m = needle.unicode_len();
    if m > n {
        return false;
    }
    let mut i: usize = 0;
    while i <= n - m
        invariant
            n == hay@.len(),
            m == needle@.len(),
            m <= n,
            i <= n - m + 1,
            forall|k: int| 0 <= k < i ==> #[trigger] hay@.subrange(k, k + m) != needle@,
        decreases n - m + 1 - i,
    {
        let mut j: usize = 0;
        let mut same = true;
        while j < m && same
            invariant
                n == hay@.len(),
                m == needle@.len(),
                i + m <= n,
                j <= m,
                same <==> forall|l: int| 0 <= l < j ==> hay@[i + l] == needle@[l],
            decreases m - j,
        {
            if hay.get_char(i + j) != needle.get_char(j) {
                same = false;
            }
            j = j + 1;
        }
        if same {
            assert(hay@.subrange(i as int, i + m) =~= needle@);
            return true;
        }
        assert(hay@.subrange(i as int, i + m) != needle@) by {
            let l = choose|l: int| 0 <= l < j && hay@[i + l] != needle@[l];
            assert(hay@.subrange(i as int, i + m)[l] != needle@[l]);
        }
        i = i + 1;
    }
    false
}

/// Some argument is exactly `flag`.
pub open spec fn has_flag(args: Seq<String>, flag: Seq<char>) -> bool {
    exists|i: int| 0 <= i < args.len() && #[trigger] args[i]@ == flag
}

/// Whether `args` holds the text `flag`.
fn find_flag(args: &Vec<String>, flag: &str) -> (r: bool)
    ensures
        r == has_flag(args@, flag@),
{
    let n = args.len();
    let mut i: usize = 0;
    while i < n
        invariant
            n == args@.len(),
            i <= n,
            forall|j: int| 0 <= j < i ==> #[trigger] args@[j]@ != flag@,
        decreases n - i,
    {
        if same_text(args[i].as_str(), flag) {
            return true;
        }
        i = i + 1;
    }
    false
}

/// Whether pieces are drawn as pictures with the Kitty graphics protocol
/// (kitty, Ghostty, WezTerm) rather than as Unicode glyphs: `--ascii` or
/// `--unicode` among the arguments forces glyphs, else `--kitty` forces
/// pictures; else pictures when `TERM` names kitty or Ghostty, when
/// `KITTY_WINDOW_ID` or `WEZTERM_EXECUTABLE` is set, or when
/// `TERM_PROGRAM`, in lower case, names Ghostty or WezTerm.
pub open spec fn kitty_wanted(
    args: Seq<String>,
    term: Option<String>,
    kitty_window: bool,
    wezterm: bool,
    term_program: Option<String>,
) -> bool {
    if has_flag(args, "--ascii"@) || has_flag(args, "--unicode"@) {
        false
    } else if has_flag(args, "--kitty"@) {
        true
    } else if term matches Some(t) && (has_infix(t@, "kitty"@) || has_infix(t@, "ghostty"@)) {
        true
    } else if kitty_window || wezterm {
        true
    } else if term_program matches Some(p) && (has_infix(lowercase(p@), "ghostty"@) || has_infix(lowercase(p@), "wezterm"@)) {
        true
    } else {
        false
    }
}

/// Decides whether to draw pieces with the Kitty graphics protocol, from
/// the program's arguments, the `TERM` and `TERM_PROGRAM` variables and
/// whether `KITTY_WINDOW_ID` and `WEZTERM_EXECUTABLE` are set.
pub fn kitty_choice(
    args: &Vec<String>,
    term: &Option<String>,
    kitty_window: bool,
    wezterm: bool,
    term_program: &Option<String>,
) -> (r: bool)
    ensures
        r == kitty_wanted(args@, *term, kitty_window, wezterm, *term_program),
{
    if find_flag(args, "--ascii") || find_flag(args, "--unicode") {
        return false;
    }
    if find_flag(args, "--kitty") {
        return true;
    }
    if let Some(t) = term {
        if contains_text(t.as_str(), "kitty") || contains_text(t.as_str(), "ghostty") {
            return true;
        }
    }
    if kitty_window || wezterm {
        return true;
    }
    if let Some(p) = term_program {
        let lower = to_lowercase(p.as_str());
        if contains_text(lower.as_str(), "ghostty") || contains_text(lower.as_str(), "wezterm") {
            return true;
        }
    }
    false
}

/// Kitty detection: `--ascii` or `--unicode` always gives glyphs; without
/// them, `--kitty` gives pictures, and so does running where `TERM`
/// contains "kitty" or "ghostty", or where `KITTY_WINDOW_ID` or
/// `WEZTERM_EXECUTABLE` is set; with none of the flags and none of the
/// signs of a Kitty-capable terminal, glyphs.
pub proof fn law_kitty_detection(
    args: Seq<String>,
    term: Option<String>,
    kitty_window: bool,
    wezterm: bool,
    term_program: Option<String>,
)
    ensures
        has_flag(args, "--ascii"@) || has_flag(args, "--unicode"@) ==> !kitty_wanted(args, term, kitty_window, wezterm, term_program),
        !has_flag(args, "--ascii"@) && !has_flag(args, "--unicode"@) && (has_flag(args, "--kitty"@) || kitty_window || wezterm
            || (term matches Some(t) && (has_infix(t@, "kitty"@) || has_infix(t@, "ghostty"@))))
            ==> kitty_wanted(args, term, kitty_window, wezterm, term_program),
        !has_flag(args, "--kitty"@) && !kitty_window && !wezterm && !(term matches Some(t) && (has_infix(t@, "kitty"@)
            || has_infix(t@, "ghostty"@))) && !(term_program matches Some(p) && (has_infix(lowercase(p@), "ghostty"@)
            || has_infix(lowercase(p@), "wezterm"@))) ==> !kitty_wanted(args, term, kitty_window, wezterm, term_program),
{
}

} // verus!
