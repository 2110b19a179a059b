//! The dictation context: which kind of application receives the text.
use vstd::prelude::*;
use crate::text::{
    ascii_lower, chars_of, copy_range, is_ws, lower, lower_chars, string_from, trim, trim_chars,
    trim_end, trim_start,
};
use crate::words::same_chars;

verus! {

/// The kinds of application that dictation distinguishes.
#[derive(Debug, Clone, Copy, PartialEq, Eq, Structural)]
pub enum ApplicationKind {
    VsCode,
    Notepad,
    Browser,
    Terminal,
    Unknown,
}

/// The application that was focused when dictation started.
#[derive(Debug, Clone, PartialEq, Eq)]
pub struct DictationContext {
    pub application: ApplicationKind,
    pub process_name: String,
    pub captured_at: u64,
}

/// A path separator, on either convention.
pub open spec fn is_sep(c: char) -> bool {
    c == '\\' || c == '/'
}

/// The index of the last path separator, or -1.
pub open spec fn last_sep(s: Seq<char>) -> int
    decreases s.len(),
{
    if s.len() == 0 {
        -1
    } else if is_sep(s.last()) {
        s.len() - 1
    } else {
        last_sep(s.drop_last())
    }
}

/// The part of a path after its last separator; the whole path when it has
/// no separator.
pub open spec fn file_name(s: Seq<char>) -> Seq<char> {
    if last_sep(s) >= 0 {
        s.skip(last_sep(s) + 1)
    } else {
        s
    }
}

pub proof fn lemma_last_sep(s: Seq<char>)
    ensures
        -1 <= last_sep(s) < s.len(),
        last_sep(s) >= 0 ==> is_sep(s[last_sep(s)]),
        forall|i: int| last_sep(s) < i < s.len() ==> !is_sep(#[trigger] s[i]),
    decreases s.len(),
{
    if s.len() > 0 && !is_sep(s.last()) {
        lemma_last_sep(s.drop_last());
        assert forall|i: int| last_sep(s) < i < s.len() implies !is_sep(#[trigger] s[i]) by {
            if i < s.len() - 1 {
                assert(s[i] == s.drop_last()[i]);
            }
        }
    }
}

fn file_name_chars(v: &Vec<char>) -> (r: Vec<char>)
    ensures
        r@ == file_name(v@),
{
    let mut n: usize = v.len();
    assert(v@.take(n as int) =~= v@);
    while n > 0 && !(v[n - 1] == '\\' || v[n - 1] == '/')
        invariant
            n <= v.len(),
            last_sep(v@) == last_sep(v@.take(n as int)),
        decreases n,
    {
        assert(v@.take(n as int).drop_last() =~= v@.take(n - 1));
        n = n - 1;
    }
    let r = copy_range(v, n, v.len());
    proof {
        if n == 0 {
            assert(r@ =~= v@);
        } else {
            assert(v@.take(n as int).last() == v@[n - 1]);
            assert(r@ =~= v@.skip(n as int));
        }
    }
    r
}

/// The file name of an executable path (what follows its last `\` or `/`).
pub fn executable_name(path: &str) -> (r: String)
    ensures
        r@ == file_name(path@),
{
    let v = chars_of(path);
    let name = file_name_chars(&v);
    string_from(&name)
}

/// The application kind of an executable, named by its lower-case file name.
pub open spec fn kind_of_executable(name: Seq<char>) -> ApplicationKind {
    if name == "code.exe"@ || name == "code-insiders.exe"@ {
        ApplicationKind::VsCode
    } else if name == "notepad.exe"@ {
        ApplicationKind::Notepad
    } else if name == "chrome.exe"@ || name == "msedge.exe"@ || name == "firefox.exe"@ {
        ApplicationKind::Browser
    } else if name == "windowsterminal.exe"@ || name == "wt.exe"@ || name == "cmd.exe"@ || name
        == "powershell.exe"@ || name == "pwsh.exe"@ {
        ApplicationKind::Terminal
    } else {
        ApplicationKind::Unknown
    }
}

/// What `classify_process_name` returns.
pub open spec fn spec_classify(process_name: Seq<char>) -> ApplicationKind {
    let executable = trim(file_name(process_name));
    if executable.len() == 0 {
        ApplicationKind::Unknown
    } else {
        kind_of_executable(lower(executable))
    }
}

fn is_name(v: &Vec<char>, name: &str) -> (r: bool)
    ensures
        r == (v@ == name@),
{
    let n = chars_of(name);
    same_chars(v, &n)
}

/// Classifies a process by its executable: the file name of the path,
/// trimmed, compared without regard to ASCII case.
pub fn classify_process_name(process_name: &str) -> (r: ApplicationKind)
    ensures
        r == spec_classify(process_name@),
{
    let v = chars_of(process_name);
    let name = file_name_chars(&v);
    let executable = trim_chars(&name);
    if executable.len() == 0 {
        return ApplicationKind::Unknown;
    }
    let l = lower_chars(&executable);
    if is_name(&l, "code.exe") || is_name(&l, "code-insiders.exe") {
        ApplicationKind::VsCode
    } else if is_name(&l, "notepad.exe") {
        ApplicationKind::Notepad
    } else if is_name(&l, "chrome.exe") || is_name(&l, "msedge.exe") || is_name(&l, "firefox.exe") {
        ApplicationKind::Browser
    } else if is_name(&l, "windowsterminal.exe") || is_name(&l, "wt.exe") || is_name(&l, "cmd.exe")
        || is_name(&l, "powershell.exe") || is_name(&l, "pwsh.exe") {
        ApplicationKind::Terminal
    } else {
        ApplicationKind::Unknown
    }
}

/// The dictation context for the process that owns the target window, as
/// far as it could be resolved, captured at `captured_at` (seconds since the
/// Unix epoch). An unresolved process has the empty name.
pub fn detect(process_name: Option<String>, captured_at: u64) -> (r: DictationContext)
    ensures
        r.process_name@ == (match process_name {
            Some(name) => name@,
            None => Seq::<char>::empty(),
        }),
        r.application == spec_classify(r.process_name@),
        r.captured_at == captured_at,
{
    let name = match process_name {
        Some(name) => name,
        None => String::new(),
    };
    let application = classify_process_name(name.as_str());
    DictationContext { application, process_name: name, captured_at }
}

proof fn lemma_last_sep_after(dir: Seq<char>, sep: char, name: Seq<char>)
    requires
        is_sep(sep),
        forall|i: int| 0 <= i < name.len() ==> !is_sep(#[trigger] name[i]),
    ensures
        last_sep(dir + seq![sep] + name) == dir.len(),
    decreases name.len(),
{
    let s = dir + seq![sep] + name;
    if name.len() == 0 {
        assert(s.last() == sep);
    } else {
        let init = name.drop_last();
        assert forall|i: int| 0 <= i < init.len() implies !is_sep(#[trigger] init[i]) by {
            assert(init[i] == name[i]);
        }
        lemma_last_sep_after(dir, sep, init);
        assert(s.drop_last() =~= dir + seq![sep] + init);
        assert(s.last() == name[name.len() - 1]);
    }
}

proof fn lemma_no_sep(name: Seq<char>)
    requires
        forall|i: int| 0 <= i < name.len() ==> !is_sep(#[trigger] name[i]),
    ensures
        last_sep(name) == -1,
    decreases name.len(),
{
    if name.len() > 0 {
        let init = name.drop_last();
        assert forall|i: int| 0 <= i < init.len() implies !is_sep(#[trigger] init[i]) by {
            assert(init[i] == name[i]);
        }
        lemma_no_sep(init);
        assert(!is_sep(name[name.len() - 1]));
    }
}

/// An executable is classified by its file name alone: the directory it
/// lies in, written with `\` or `/`, does not matter.
pub proof fn classification_ignores_directory(dir: Seq<char>, sep: char, name: Seq<char>)
    requires
        is_sep(sep),
        forall|i: int| 0 <= i < name.len() ==> !is_sep(#[trigger] name[i]),
    ensures
        spec_classify(dir + seq![sep] + name) == spec_classify(name),
{
    let s = dir + seq![sep] + name;
    lemma_last_sep_after(dir, sep, name);
    lemma_no_sep(name);
    assert(s.skip(dir.len() as int + 1) =~= name);
}

proof fn lemma_lower_char(c: char)
    ensures
        is_sep(ascii_lower(c)) == is_sep(c),
        is_ws(ascii_lower(c)) == is_ws(c),
        ascii_lower(ascii_lower(c)) == ascii_lower(c),
{
}

proof fn lemma_last_sep_lower(s: Seq<char>)
    ensures
        last_sep(lower(s)) == last_sep(s),
    decreases s.len(),
{
    if s.len() > 0 {
        lemma_last_sep_lower(s.drop_last());
        assert(lower(s).drop_last() =~= lower(s.drop_last()));
        lemma_lower_char(s.last());
    }
}

proof fn lemma_trim_start_lower(s: Seq<char>)
    ensures
        trim_start(lower(s)) == lower(trim_start(s)),
    decreases s.len(),
{
    if s.len() > 0 {
        lemma_lower_char(s[0]);
        assert(lower(s)[0] == ascii_lower(s[0]));
        if is_ws(s[0]) {
            lemma_trim_start_lower(s.drop_first());
            assert(lower(s).drop_first() =~= lower(s.drop_first()));
        }
    }
}

proof fn lemma_trim_end_lower(s: Seq<char>)
    ensures
        trim_end(lower(s)) == lower(trim_end(s)),
    decreases s.len(),
{
    if s.len() > 0 {
        lemma_lower_char(s.last());
        assert(lower(s).last() == ascii_lower(s.last()));
        if is_ws(s.last()) {
            lemma_trim_end_lower(s.drop_last());
            assert(lower(s).drop_last() =~= lower(s.drop_last()));
        }
    }
}

/// Classification does not depend on ASCII case.
pub proof fn classification_ignores_ascii_case(process_name: Seq<char>)
    ensures
        spec_classify(lower(process_name)) == spec_classify(process_name),
{
    let s = process_name;
    lemma_last_sep_lower(s);
    lemma_last_sep(s);
    let f = file_name(s);
    let j: int = last_sep(s);
    if j >= 0 {
        assert(lower(s).skip(j + 1) =~= lower(s.skip(j + 1)));
    }
    assert(file_name(lower(s)) =~= lower(f));
    lemma_trim_start_lower(f);
    lemma_trim_end_lower(trim_start(f));
    let e = trim(f);
    assert(trim(lower(f)) == lower(e));
    assert(lower(lower(e)) =~= lower(e)) by {
        assert forall|i: int| 0 <= i < e.len() implies lower(lower(e))[i] == lower(e)[i] by {
            lemma_lower_char(e[i]);
        }
    }
}

} // verus!
