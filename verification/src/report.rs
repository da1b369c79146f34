//! The text of a run's side files, what the files are called, and which of them
//! count as results. Numbers arrive as text.
use vstd::prelude::*;
use vstd::string::*;

verus! {

/// Texts one after another with a separator between them.
pub open spec fn joined(parts: Seq<Seq<char>>, separator: Seq<char>) -> Seq<char>
    decreases parts.len(),
{
    if parts.len() == 0 {
        Seq::empty()
    } else if parts.len() == 1 {
        parts[0]
    } else {
        joined(parts.drop_last(), separator) + separator + parts.last()
    }
}

/// The texts of some strings.
pub open spec fn texts(parts: Seq<String>) -> Seq<Seq<char>> {
    Seq::new(parts.len(), |i: int| parts[i]@)
}

/// Join texts with a separator between them.
pub fn join(parts: &[String], separator: &str) -> (s: String)
    ensures
        s@ == joined(texts(parts@), separator@),
{
    let mut s: String = String::new();
    proof {
        assert(texts(parts@).subrange(0, 0) =~= Seq::empty());
    }
    for i in 0..parts.len()
        invariant
            s@ == joined(texts(parts@).subrange(0, i as int), separator@),
    {
        let ghost shorter = texts(parts@).subrange(0, i as int);
        let ghost longer = texts(parts@).subrange(0, i + 1);
        proof {
            assert(longer.drop_last() =~= shorter);
            assert(longer.last() == parts@[i as int]@);
        }
        if i > 0 {
            s.append(separator);
        }
        s.append(parts[i].as_str());
        proof {
            if i == 0 {
                assert(shorter.len() == 0);
                assert(s@ =~= parts@[0]@);
            }
        }
    }
    proof {
        assert(texts(parts@).subrange(0, parts@.len() as int) =~= texts(parts@));
    }
    s
}

/// A name and its value.
#[derive(Debug)]
pub struct Entry {
    pub key: String,
    pub value: String,
}

/// An entry as a line of an object.
pub open spec fn entry_text(e: Entry) -> Seq<char> {
    "  \""@ + e.key@ + "\": "@ + e.value@
}

/// The entries as lines of an object.
pub open spec fn entry_texts(entries: Seq<Entry>) -> Seq<Seq<char>> {
    Seq::new(entries.len(), |i: int| entry_text(entries[i]))
}

/// Some entries as an object, one to a line.
pub open spec fn object_text(entries: Seq<Entry>) -> Seq<char> {
    "{\n"@ + joined(entry_texts(entries), ",\n"@) + "\n}\n"@
}

fn entry_line(e: &Entry) -> (s: String)
    ensures
        s@ == entry_text(*e),
{
    let mut s: String = String::new();
    s.append("  \"");
    s.append(e.key.as_str());
    s.append("\": ");
    s.append(e.value.as_str());
    proof {
        assert(s@ =~= entry_text(*e));
    }
    s
}

/// The parameters of a run as an object, one entry to a line.
pub fn object(entries: &[Entry]) -> (s: String)
    ensures
        s@ == object_text(entries@),
{
    let mut lines: Vec<String> = Vec::with_capacity(entries.len());
    for i in 0..entries.len()
        invariant
            lines@.len() == i,
            forall|l: int| 0 <= l < i ==> (#[trigger] lines@[l])@ == entry_text(entries@[l]),
    {
        lines.push(entry_line(&entries[i]));
    }
    proof {
        assert(texts(lines@) =~= entry_texts(entries@));
    }
    let body: String = join(lines.as_slice(), ",\n");
    let mut s: String = String::new();
    s.append("{\n");
    s.append(body.as_str());
    s.append("\n}\n");
    proof {
        assert(s@ =~= object_text(entries@));
    }
    s
}

/// A text in quotes.
pub fn quoted(text: &str) -> (s: String)
    ensures
        s@ == "\""@ + text@ + "\""@,
{
    let mut s: String = String::new();
    s.append("\"");
    s.append(text);
    s.append("\"");
    proof {
        assert(s@ =~= "\""@ + text@ + "\""@);
    }
    s
}

/// Some values as a list.
pub fn list(values: &[String]) -> (s: String)
    ensures
        s@ == "["@ + joined(texts(values@), ", "@) + "]"@,
{
    let body: String = join(values, ", ");
    let mut s: String = String::new();
    s.append("[");
    s.append(body.as_str());
    s.append("]");
    proof {
        assert(s@ =~= "["@ + joined(texts(values@), ", "@) + "]"@);
    }
    s
}

/// The lines of a table, each a row of cells.
pub open spec fn lines_text(rows: Seq<Vec<String>>) -> Seq<char>
    decreases rows.len(),
{
    if rows.len() == 0 {
        Seq::empty()
    } else {
        lines_text(rows.drop_last()) + joined(texts(rows.last()@), ","@) + "\n"@
    }
}

/// A table: its heading, then a line for each row.
pub fn csv(heading: &str, rows: &[Vec<String>]) -> (s: String)
    ensures
        s@ == heading@ + lines_text(rows@),
{
    let mut s: String = String::new();
    s.append(heading);
    proof {
        assert(rows@.subrange(0, 0) =~= Seq::empty());
        assert(s@ =~= heading@ + lines_text(rows@.subrange(0, 0)));
    }
    for i in 0..rows.len()
        invariant
            s@ == heading@ + lines_text(rows@.subrange(0, i as int)),
    {
        let line: String = join(rows[i].as_slice(), ",");
        let ghost before = s@;
        s.append(line.as_str());
        s.append("\n");
        proof {
            let longer = rows@.subrange(0, i + 1);
            assert(longer.drop_last() =~= rows@.subrange(0, i as int));
            assert(longer.last() == rows@[i as int]);
            assert(s@ =~= heading@ + lines_text(longer));
        }
    }
    proof {
        assert(rows@.subrange(0, rows@.len() as int) =~= rows@);
    }
    s
}

/// The row on extinction in the notes of a run: none without extinction, else
/// the coefficient, and the visibility where it came from one.
pub open spec fn extinction_text(
    extinct: bool,
    visibility: Option<Seq<char>>,
    alpha: Seq<char>,
) -> Seq<char> {
    if !extinct {
        "| Extinction | none (vacuum) |\n"@
    } else {
        match visibility {
            Some(v) => "| Extinction α (Kruse, visibility "@ + v + " m) | "@ + alpha
                + " 1/m |\n"@,
            None => "| Extinction α | "@ + alpha + " 1/m |\n"@,
        }
    }
}

/// The row on extinction in the notes of a run.
pub fn extinction_row(extinct: bool, visibility: Option<&str>, alpha: &str) -> (s: String)
    ensures
        s@ == extinction_text(
            extinct,
            match visibility {
                Some(v) => Some(v@),
                None => None,
            },
            alpha@,
        ),
{
    let mut s: String = String::new();
    if !extinct {
        s.append("| Extinction | none (vacuum) |\n");
        proof {
            assert(s@ =~= "| Extinction | none (vacuum) |\n"@);
        }
        return s;
    }
    match visibility {
        Some(v) => {
            s.append("| Extinction α (Kruse, visibility ");
            s.append(v);
            s.append(" m) | ");
        },
        None => {
            s.append("| Extinction α | ");
        },
    }
    s.append(alpha);
    s.append(" 1/m |\n");
    proof {
        match visibility {
            Some(v) => {
                assert(s@ =~= "| Extinction α (Kruse, visibility "@ + v@ + " m) | "@ + alpha@
                    + " 1/m |\n"@);
            },
            None => {
                assert(s@ =~= "| Extinction α | "@ + alpha@ + " 1/m |\n"@);
            },
        }
    }
    s
}

/// A file that a run writes.
#[derive(Debug, Clone, Copy, PartialEq, Eq, Structural)]
pub enum Output {
    Plane,
    SideView,
    SideViews,
    Frames,
    FinalPlane,
    LongExposure,
    Traces,
    Profiles,
    Threshold,
    Trajectory,
    Meta,
    Notes,
}

/// What a file's name has behind the base name of its run.
pub open spec fn suffix_of(output: Output) -> Seq<char> {
    match output {
        Output::Plane => ".npy"@,
        Output::SideView => "_xz.npy"@,
        Output::SideViews => "_xz_frames.npy"@,
        Output::Frames => "_frames.npy"@,
        Output::FinalPlane => "_final.npy"@,
        Output::LongExposure => "_longexp.npy"@,
        Output::Traces => "_ne_traces.npy"@,
        Output::Profiles => "_profiles.npy"@,
        Output::Threshold => "_threshold.csv"@,
        Output::Trajectory => "_trajectory.csv"@,
        Output::Meta => "_meta.json"@,
        Output::Notes => "_notes.md"@,
    }
}

/// Name of a file that a run writes.
pub fn output_name(base: &str, output: Output) -> (s: String)
    ensures
        s@ == base@ + suffix_of(output),
{
    let suffix: &str = match output {
        Output::Plane => ".npy",
        Output::SideView => "_xz.npy",
        Output::SideViews => "_xz_frames.npy",
        Output::Frames => "_frames.npy",
        Output::FinalPlane => "_final.npy",
        Output::LongExposure => "_longexp.npy",
        Output::Traces => "_ne_traces.npy",
        Output::Profiles => "_profiles.npy",
        Output::Threshold => "_threshold.csv",
        Output::Trajectory => "_trajectory.csv",
        Output::Meta => "_meta.json",
        Output::Notes => "_notes.md",
    };
    let mut s: String = String::new();
    s.append(base);
    s.append(suffix);
    proof {
        assert(s@ =~= base@ + suffix_of(output));
    }
    s
}

/// A text ends with another.
pub open spec fn is_ending(text: Seq<char>, end: Seq<char>) -> bool {
    &&& text.len() >= end.len()
    &&& text.subrange(text.len() - end.len(), text.len() as int) == end
}

/// A file name has an extension, given with its dot, behind something else.
pub open spec fn has_extension(name: Seq<char>, extension: Seq<char>) -> bool {
    name.len() > extension.len() && is_ending(name, extension)
}

/// A file name is that of a result: an array, an image, or a side file.
pub open spec fn is_result_name(name: Seq<char>) -> bool {
    ||| has_extension(name, ".npy"@)
    ||| has_extension(name, ".png"@)
    ||| has_extension(name, ".gif"@)
    ||| is_ending(name, "_notes.md"@)
    ||| is_ending(name, "_meta.json"@)
}

fn ends_with(text: &str, end: &str) -> (b: bool)
    ensures
        b == is_ending(text@, end@),
{
    let n: usize = text.unicode_len();
    let m: usize = end.unicode_len();
    if n < m {
        return false;
    }
    for i in 0..m
        invariant
            n == text@.len(),
            m == end@.len(),
            m <= n,
            forall|l: int| 0 <= l < i ==> #[trigger] text@[n - m + l] == end@[l],
    {
        if text.get_char(n - m + i) != end.get_char(i) {
            proof {
                let tail = text@.subrange(n - m, n as int);
                assert(tail[i as int] == text@[n - m + i]);
            }
            return false;
        }
    }
    proof {
        let tail = text@.subrange(n - m, n as int);
        assert forall|l: int| 0 <= l < m implies #[trigger] tail[l] == end@[l] by {
            assert(tail[l] == text@[n - m + l]);
        }
        assert(tail =~= end@);
    }
    true
}

fn extends(name: &str, extension: &str) -> (b: bool)
    ensures
        b == has_extension(name@, extension@),
{
    name.unicode_len() > extension.unicode_len() && ends_with(name, extension)
}

/// Whether a file name is that of a result.
pub fn is_result(name: &str) -> (b: bool)
    ensures
        b == is_result_name(name@),
{
    extends(name, ".npy") || extends(name, ".png") || extends(name, ".gif") || ends_with(
        name,
        "_notes.md",
    ) || ends_with(name, "_meta.json")
}

proof fn lemma_ending(base: Seq<char>, whole: Seq<char>, end: Seq<char>)
    requires
        is_ending(whole, end),
    ensures
        is_ending(base + whole, end),
{
    let text = base + whole;
    assert(text.subrange(text.len() - end.len(), text.len() as int) =~= whole.subrange(
        whole.len() - end.len(),
        whole.len() as int,
    ));
}

/// Everything that a run writes but its tables counts as a result, and its tables
/// do not. (An array with nothing before its extension would not.)
pub proof fn law_all_but_tables_are_results(base: Seq<char>, output: Output)
    requires
        output == Output::Plane ==> base.len() > 0,
    ensures
        is_result_name(base + suffix_of(output)) == !(output == Output::Threshold || output
            == Output::Trajectory),
{
    reveal_strlit(".npy");
    reveal_strlit(".png");
    reveal_strlit(".gif");
    reveal_strlit("_notes.md");
    reveal_strlit("_meta.json");
    reveal_strlit("_xz.npy");
    reveal_strlit("_xz_frames.npy");
    reveal_strlit("_frames.npy");
    reveal_strlit("_final.npy");
    reveal_strlit("_longexp.npy");
    reveal_strlit("_ne_traces.npy");
    reveal_strlit("_profiles.npy");
    reveal_strlit("_threshold.csv");
    reveal_strlit("_trajectory.csv");
    let suffix = suffix_of(output);
    let name = base + suffix;
    match output {
        Output::Meta => {
            assert(suffix.subrange(0, suffix.len() as int) =~= suffix);
            lemma_ending(base, suffix, "_meta.json"@);
        },
        Output::Notes => {
            assert(suffix.subrange(0, suffix.len() as int) =~= suffix);
            lemma_ending(base, suffix, "_notes.md"@);
        },
        Output::Threshold | Output::Trajectory => {
            assert(name.last() == 'v');
            assert(".npy"@.last() == 'y');
            assert(".png"@.last() == 'g');
            assert(".gif"@.last() == 'f');
            assert("_notes.md"@.last() == 'd');
            assert("_meta.json"@.last() == 'n');
            lemma_last_of_ending(name, ".npy"@);
            lemma_last_of_ending(name, ".png"@);
            lemma_last_of_ending(name, ".gif"@);
            lemma_last_of_ending(name, "_notes.md"@);
            lemma_last_of_ending(name, "_meta.json"@);
        },
        _ => {
            assert(suffix.subrange(suffix.len() - 4, suffix.len() as int) =~= ".npy"@);
            lemma_ending(base, suffix, ".npy"@);
        },
    }
}

proof fn lemma_last_of_ending(text: Seq<char>, end: Seq<char>)
    requires
        end.len() > 0,
    ensures
        is_ending(text, end) ==> text.last() == end.last(),
{
    if is_ending(text, end) {
        let tail = text.subrange(text.len() - end.len(), text.len() as int);
        assert(tail.last() == text.last());
    }
}

} // verus!
