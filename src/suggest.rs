//! Launcher suggestions: well-known programs and sites whose short name
//! contains the lower-cased query.
use crate::order::{bytes_of, views};
use vstd::prelude::*;
use vstd::string::StringExecFns;

verus! {

/// The lower-case form of a string, as `str::to_lowercase` gives it.
pub uninterp spec fn lower_of(s: Seq<char>) -> Seq<char>;

/// Relies on `str::to_lowercase`: the result depends on the characters
/// of `s` alone.
#[verifier::external_body]
fn lowercase(s: &str) -> (r: String)
    ensures
        r@ == lower_of(s@),
{
    s.to_lowercase()
}

/// The known programs, then the known sites: a short name and what it
/// launches.
pub open spec fn launch_targets() -> Seq<(Seq<char>, Seq<char>)> {
    seq![
        ("notepad"@, "notepad.exe"@),
        ("calc"@, "calc.exe"@),
        ("calculator"@, "calc.exe"@),
        ("paint"@, "mspaint.exe"@),
        ("cmd"@, "cmd.exe"@),
        ("command"@, "cmd.exe"@),
        ("powershell"@, "powershell.exe"@),
        ("explorer"@, "explorer.exe"@),
        ("chrome"@, "chrome.exe"@),
        ("firefox"@, "firefox.exe"@),
        ("edge"@, "msedge.exe"@),
        ("task"@, "taskmgr.exe"@),
        ("taskmanager"@, "taskmgr.exe"@),
        ("google"@, "https://www.google.com"@),
        ("youtube"@, "https://www.youtube.com"@),
        ("github"@, "https://www.github.com"@),
        ("stackoverflow"@, "https://stackoverflow.com"@),
        ("reddit"@, "https://www.reddit.com"@),
        ("twitter"@, "https://www.twitter.com"@),
        ("facebook"@, "https://www.facebook.com"@),
    ]
}

/// `p` occurs in `s`, compared byte by byte.
pub open spec fn contains_text(s: Seq<char>, p: Seq<char>) -> bool {
    exists|i: int|
        0 <= i && i + bytes_of(p).len() <= bytes_of(s).len() && #[trigger] bytes_of(s).subrange(
            i,
            i + bytes_of(p).len(),
        ) == bytes_of(p)
}

/// How a suggestion reads: the short name, an arrow, and its target.
pub open spec fn label(name: Seq<char>, target: Seq<char>) -> Seq<char> {
    name + " → "@ + target
}

/// The target whose name contains `lowered`, labelled, in table order;
/// when none matches and `query` is not empty, one entry offering to run
/// `query` itself.
pub open spec fn suggestion_list(query: Seq<char>, lowered: Seq<char>) -> Seq<Seq<char>> {
    let hits = launch_targets().filter(|e: (Seq<char>, Seq<char>)| contains_text(e.0, lowered));
    if hits.len() == 0 && query.len() > 0 {
        seq!["Run: "@ + query]
    } else {
        hits.map_values(|e: (Seq<char>, Seq<char>)| label(e.0, e.1))
    }
}

/// The launch table as values.
fn launch_table() -> (r: Vec<(&'static str, &'static str)>)
    ensures
        r@.map_values(|e: (&'static str, &'static str)| (e.0@, e.1@)) == launch_targets(),
{
    let r = vec![
        ("notepad", "notepad.exe"),
        ("calc", "calc.exe"),
        ("calculator", "calc.exe"),
        ("paint", "mspaint.exe"),
        ("cmd", "cmd.exe"),
        ("command", "cmd.exe"),
        ("powershell", "powershell.exe"),
        ("explorer", "explorer.exe"),
        ("chrome", "chrome.exe"),
        ("firefox", "firefox.exe"),
        ("edge", "msedge.exe"),
        ("task", "taskmgr.exe"),
        ("taskmanager", "taskmgr.exe"),
        ("google", "https://www.google.com"),
        ("youtube", "https://www.youtube.com"),
        ("github", "https://www.github.com"),
        ("stackoverflow", "https://stackoverflow.com"),
        ("reddit", "https://www.reddit.com"),
        ("twitter", "https://www.twitter.com"),
        ("facebook", "https://www.facebook.com"),
    ];
    assert(r@.map_values(|e: (&'static str, &'static str)| (e.0@, e.1@)) =~= launch_targets());
    r
}

/// Whether `p` occurs in `s`, compared byte by byte.
pub fn contains_str(s: &str, p: &str) -> (r: bool)
    ensures
        r == contains_text(s@, p@),
{
    let sb = s.as_bytes();
    let pb = p.as_bytes();
    if pb.len() > sb.len() {
        return false;
    }
    let n = sb.len();
    let m = pb.len();
    if m == 0 {
        assert(bytes_of(s@).subrange(0, 0 + bytes_of(p@).len() as int) =~= bytes_of(p@));
        return true;
    }
    let last = n - m;
    let mut i: usize = 0;
    while i <= last
        invariant
            sb@ == bytes_of(s@),
            pb@ == bytes_of(p@),
            last == sb@.len() - pb@.len(),
            i <= last + 1,
            n == sb@.len(),
            m == pb@.len(),
            m >= 1,
            forall|k: int| 0 <= k < i ==> #[trigger] sb@.subrange(k, k + pb@.len()) != pb@,
        decreases last + 1 - i,
    {
        let mut j: usize = 0;
        let mut same = true;
        while j < m
            invariant
                i <= last,
                n == sb@.len(),
                m == pb@.len(),
                m <= n,
                last == n - m,
                j <= pb@.len(),
                same <==> forall|m: int| 0 <= m < j ==> sb@[i + m] == pb@[m],
            decreases pb@.len() - j,
        {
            if sb[i + j] != pb[j] {
                same = false;
            }
            j = j + 1;
        }
        if same {
            assert(sb@.subrange(i as int, i + pb@.len()) =~= pb@);
            return true;
        }
        proof {
            let m = choose|m: int| 0 <= m < pb@.len() && sb@[i + m] != pb@[m];
            assert(sb@.subrange(i as int, i + pb@.len())[m] != pb@[m]);
        }
        i = i + 1;
    }
    false
}

/// Suggestions for `query`, given `lowered`, the lower-case form of
/// `query`: every launch target whose name contains `lowered`, labelled
/// `name → target`, in table order; when none matches and `query` is not
/// empty, the single entry `Run: query`.
pub fn suggestions_for(query: &str, lowered: &str) -> (r: Vec<String>)
    ensures
        views(r@) == suggestion_list(query@, lowered@),
{
    let table = launch_table();
    let ghost pred = |e: (Seq<char>, Seq<char>)| contains_text(e.0, lowered@);
    let ghost tv = launch_targets();
    let mut r: Vec<String> = Vec::new();
    let mut i: usize = 0;
    assert(tv.take(0) =~= Seq::<(Seq<char>, Seq<char>)>::empty());
    assert(views(r@) =~= Seq::<Seq<char>>::empty());
    proof {
        reveal(Seq::filter);
    }
    while i < table.len()
        invariant
            tv == launch_targets(),
            table@.map_values(|e: (&'static str, &'static str)| (e.0@, e.1@)) == tv,
            pred == (|e: (Seq<char>, Seq<char>)| contains_text(e.0, lowered@)),
            i <= table@.len(),
            views(r@) == tv.take(i as int).filter(pred).map_values(
                |e: (Seq<char>, Seq<char>)| label(e.0, e.1),
            ),
        decreases table@.len() - i,
    {
        let (name, target) = table[i];
        let ghost before = tv.take(i as int);
        let ghost after = tv.take(i + 1);
        assert(after.drop_last() =~= before);
        assert(after.last() == (name@, target@));
        let hit = contains_str(name, lowered);
        let ghost r0 = views(r@);
        if hit {
            let mut l = String::new();
            l.append(name);
            l.append(" → ");
            l.append(target);
            assert(l@ =~= label(name@, target@));
            r.push(l);
            assert(views(r@) =~= r0.push(label(name@, target@)));
        }
        proof {
            reveal(Seq::filter);
            assert(after.filter(pred) == if pred((name@, target@)) {
                before.filter(pred).push((name@, target@))
            } else {
                before.filter(pred)
            });
            assert(views(r@) =~= after.filter(pred).map_values(|e: (Seq<char>, Seq<char>)| label(e.0, e.1)));
        }
        i = i + 1;
    }
    assert(tv.take(i as int) =~= tv);
    assert(views(r@).len() == r@.len());
    if r.len() == 0 && !query.is_empty() {
        let mut run = String::new();
        run.append("Run: ");
        run.append(query);
        assert(run@ =~= "Run: "@ + query@);
        r.push(run);
        assert(views(r@) =~= seq!["Run: "@ + query@]);
    }
    r
}

/// Suggestions for what a user has typed, matched on its lower-case form
/// (see `suggestions_for`).
pub fn get_suggestions(query: &str) -> (r: Vec<String>)
    ensures
        views(r@) == suggestion_list(query@, lower_of(query@)),
{
    let lowered = lowercase(query);
    suggestions_for(query, lowered.as_str())
}

} // verus!
