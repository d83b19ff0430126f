//! Where the programs that read other video formats are looked for.

use crate::text::{from_chars, to_chars};
use vstd::prelude::*;
use vstd::slice::slice_subrange;

verus! {

/// A directory: some base, and a way from there, which may be empty.
#[derive(Debug, Clone)]
pub struct ToolPlace {
    pub base: String,
    pub below: &'static str,
}

impl View for ToolPlace {
    type V = (Seq<char>, Seq<char>);

    open spec fn view(&self) -> (Seq<char>, Seq<char>) {
        (self.base@, self.below@)
    }
}

/// What the system says about its directories.
#[derive(Debug, Clone)]
pub struct SystemPlaces {
    /// The directory of the running program.
    pub program: Option<String>,
    /// The home of the user.
    pub home: Option<String>,
    /// The data of the user's programs.
    pub data: Option<String>,
    /// The directories in which the system itself looks.
    pub path: Vec<String>,
}

/// A text ends in another.
pub open spec fn ends_in(s: Seq<char>, end: Seq<char>) -> bool {
    s.len() >= end.len() && s.subrange(s.len() - end.len(), s.len() as int) == end
}

/// The file of a program.
pub open spec fn program_file(name: Seq<char>) -> Seq<char> {
    if ends_in(name, ".exe"@) {
        name
    } else {
        name + ".exe"@
    }
}

/// The file of a program.
pub fn tool_file_name(name: &str) -> (r: String)
    ensures
        r@ == program_file(name@),
{
    let chars = to_chars(name);
    let end = to_chars(".exe");
    if chars.len() >= end.len() {
        let tail = from_chars(slice_subrange(chars.as_slice(), chars.len() - end.len(), chars.len()));
        if crate::text::same(tail.as_str(), ".exe") {
            return name.to_owned();
        }
    }
    let mut r: String = name.to_owned();
    r.append(".exe");
    r
}

/// The place that is known if its base is.
pub open spec fn known(base: Option<String>, below: Seq<char>) -> Seq<(Seq<char>, Seq<char>)> {
    match base {
        Some(b) => seq![(b@, below)],
        None => Seq::empty(),
    }
}

/// The places in which a program is looked for, in this order.
pub open spec fn places_of(s: SystemPlaces) -> Seq<(Seq<char>, Seq<char>)> {
    seq![("C:\\ProgramData\\chocolatey\\lib\\ffmpeg\\tools\\ffmpeg\\bin"@, ""@)]
        + known(s.program, ""@)
        + known(s.home, "scoop\\apps\\ffmpeg\\current\\bin"@)
        + known(
        s.data,
        "Microsoft\\WinGet\\Packages\\Gyan.FFmpeg_Microsoft.Winget.Source_8wekyb3d8bbwe\\ffmpeg\\bin"@,
    ) + Seq::new(s.path@.len(), |i: int| (s.path@[i]@, ""@))
}

/// What the places of a list are.
pub open spec fn views(places: Seq<ToolPlace>) -> Seq<(Seq<char>, Seq<char>)> {
    Seq::new(places.len(), |i: int| places[i]@)
}

/// Appends the place that is known if its base is.
fn push_known(out: &mut Vec<ToolPlace>, base: &Option<String>, below: &'static str)
    ensures
        views(final(out)@) == views(old(out)@) + known(*base, below@),
{
    if let Some(b) = base {
        out.push(ToolPlace { base: b.as_str().to_owned(), below });
    }
    assert(views(out@) =~= views(old(out)@) + known(*base, below@));
}

/// The places in which a program is looked for. The first in which its file is found counts.
pub fn tool_places(s: &SystemPlaces) -> (r: Vec<ToolPlace>)
    ensures
        views(r@) == places_of(*s),
{
    let mut out: Vec<ToolPlace> = Vec::new();
    out.push(
        ToolPlace {
            base: "C:\\ProgramData\\chocolatey\\lib\\ffmpeg\\tools\\ffmpeg\\bin".to_owned(),
            below: "",
        },
    );
    assert(views(out@) =~= seq![
        ("C:\\ProgramData\\chocolatey\\lib\\ffmpeg\\tools\\ffmpeg\\bin"@, ""@),
    ]);
    push_known(&mut out, &s.program, "");
    push_known(&mut out, &s.home, "scoop\\apps\\ffmpeg\\current\\bin");
    push_known(
        &mut out,
        &s.data,
        "Microsoft\\WinGet\\Packages\\Gyan.FFmpeg_Microsoft.Winget.Source_8wekyb3d8bbwe\\ffmpeg\\bin",
    );
    let ghost front = views(out@);
    let ghost path = Seq::new(s.path@.len(), |i: int| (s.path@[i]@, ""@));
    let mut i: usize = 0;
    assert(front + path.subrange(0, 0) =~= front);
    while i < s.path.len()
        invariant
            i <= s.path@.len(),
            path == Seq::new(s.path@.len(), |i: int| (s.path@[i]@, ""@)),
            views(out@) == front + path.subrange(0, i as int),
        decreases s.path@.len() - i,
    {
        let ghost before = views(out@);
        out.push(ToolPlace { base: s.path[i].as_str().to_owned(), below: "" });
        assert(views(out@) =~= before.push(path[i as int]));
        assert(path.subrange(0, i + 1) =~= path.subrange(0, i as int).push(path[i as int]));
        i = i + 1;
        assert(views(out@) =~= front + path.subrange(0, i as int));
    }
    assert(path.subrange(0, i as int) =~= path);
    out
}

/// The file of a program ends in `.exe`, once: a name that does so already is the file's.
pub proof fn law_program_file(name: Seq<char>)
    ensures
        ends_in(program_file(name), ".exe"@),
        program_file(program_file(name)) == program_file(name),
        program_file(name).subrange(0, name.len() as int) == name,
        !ends_in(name, ".exe"@) ==> program_file(name).len() == name.len() + 4,
{
    reveal_strlit(".exe");
    let longer = name + ".exe"@;
    assert(longer.subrange(longer.len() - 4, longer.len() as int) =~= ".exe"@);
    assert(program_file(name).subrange(0, name.len() as int) =~= name);
}

/// The directories of the system come last, in their order; before them come the places that are
/// known, of which there are one to four.
pub proof fn law_places_in_order(s: SystemPlaces, i: int)
    requires
        0 <= i < s.path@.len(),
    ensures
        ({
            let all = places_of(s);
            let front = all.len() - s.path@.len();
            let one = |base: Option<String>|
                if base is Some {
                    1int
                } else {
                    0
                };
            &&& front == 1 + one(s.program) + one(s.home) + one(s.data)
            &&& all[front + i].0 == s.path@[i]@
            &&& s.program matches Some(b) ==> all[1].0 == b@
            &&& s.home matches Some(b) ==> all[1 + one(s.program)].0 == b@
            &&& s.data matches Some(b) ==> all[front - 1].0 == b@
        }),
{
}

} // verus!
