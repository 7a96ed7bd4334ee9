//! The reporter: a finished classification as lines of text.

use vstd::prelude::*;
use vstd::string::StringExecFns;
use crate::classification::{ClassMap, Entry, EntryView};
use crate::record::{texts, DepRecord, RecordView};

verus! {

/// What the report shows.
#[derive(Clone, Copy, Debug, PartialEq, Eq, Structural)]
pub struct Options {
    /// List under each found module the dependency names it declares.
    pub show_long: bool,
    /// Leave out the dependencies that were not found.
    pub found_only: bool,
}

/// The line for one declared dependency of a found module.
pub open spec fn arrow_line(name: Seq<char>) -> Seq<char> {
    " -> "@ + name
}

/// The line for a dependency that was not found.
pub open spec fn not_found_line(text: Seq<char>) -> Seq<char> {
    text + " (NOTFOUND)"@
}

/// The line for a module that could not be read or parsed.
pub open spec fn invalid_line(text: Seq<char>, detail: Seq<char>) -> Seq<char> {
    text + " (Error: "@ + detail + ")"@
}

/// The notice for an initial input that does not exist.
pub open spec fn missing_line(path: Seq<char>) -> Seq<char> {
    "File Not Found: "@ + path
}

/// One arrow line per name, in order.
pub open spec fn arrow_lines(names: Seq<Seq<char>>) -> Seq<Seq<char>> {
    Seq::new(names.len(), |i: int| arrow_line(names[i]))
}

/// The lines that one entry contributes to the report.
///
/// A found module gives its identity, followed under `show_long` by its
/// dependency names. An unresolved dependency gives one line, and none under
/// `found_only`. An invalid module gives one line with the message of its
/// failure. An entry that is still queued gives nothing.
pub open spec fn entry_lines(entry: EntryView, options: Options) -> Seq<Seq<char>> {
    match entry.record {
        RecordView::Found(names) => if options.show_long {
            seq![entry.id.text()] + arrow_lines(names)
        } else {
            seq![entry.id.text()]
        },
        RecordView::NotFound => if options.found_only {
            Seq::empty()
        } else {
            seq![not_found_line(entry.id.text())]
        },
        RecordView::Invalid(failure) => seq![invalid_line(entry.id.text(), failure.detail)],
        RecordView::Queued => Seq::empty(),
    }
}

/// The report on a listing: the lines of its entries, in the order of the
/// listing.
pub open spec fn rendered(list: Seq<EntryView>, options: Options) -> Seq<Seq<char>>
    decreases list.len(),
{
    if list.len() == 0 {
        Seq::empty()
    } else {
        rendered(list.drop_last(), options) + entry_lines(list.last(), options)
    }
}

/// The listing without its `NotFound` entries.
pub open spec fn without_unresolved(list: Seq<EntryView>) -> Seq<EntryView>
    decreases list.len(),
{
    if list.len() == 0 {
        list
    } else if list.last().record is NotFound {
        without_unresolved(list.drop_last())
    } else {
        without_unresolved(list.drop_last()).push(list.last())
    }
}

/// Under `found_only` the report is the one that the listing gives once its
/// `NotFound` entries are taken out: those lines go, and every other line
/// stays as it is and where it is.
pub proof fn lemma_found_only(list: Seq<EntryView>, show_long: bool)
    ensures
        rendered(list, Options { show_long, found_only: true }) == rendered(
            without_unresolved(list),
            Options { show_long, found_only: false },
        ),
        rendered(list, Options { show_long, found_only: true }) == rendered(
            without_unresolved(list),
            Options { show_long, found_only: true },
        ),
    decreases list.len(),
{
    let on = Options { show_long, found_only: true };
    let off = Options { show_long, found_only: false };
    if list.len() > 0 {
        lemma_found_only(list.drop_last(), show_long);
        let rest = without_unresolved(list.drop_last());
        if list.last().record is NotFound {
            assert(rendered(list.drop_last(), on) + Seq::<Seq<char>>::empty() =~= rendered(
                list.drop_last(),
                on,
            ));
        } else {
            let kept = rest.push(list.last());
            assert(kept.drop_last() =~= rest);
            assert(kept.last() == list.last());
            assert(entry_lines(list.last(), on) == entry_lines(list.last(), off));
        }
    }
}

/// The notice for an initial input that does not exist.
pub fn missing_notice(path: &str) -> (line: String)
    ensures
        line@ == missing_line(path@),
{
    let mut line = String::from_str("File Not Found: ");
    line.append(path);
    line
}

/// One notice per missing input, in order.
pub open spec fn missing_lines(missing: Seq<Seq<char>>) -> Seq<Seq<char>> {
    Seq::new(missing.len(), |i: int| missing_line(missing[i]))
}

/// The notices for the initial inputs that do not exist.
pub fn render_missing(missing: &Vec<String>) -> (lines: Vec<String>)
    ensures
        texts(lines@) == missing_lines(texts(missing@)),
{
    let mut lines: Vec<String> = Vec::new();
    let mut i: usize = 0;
    while i < missing.len()
        invariant
            i <= missing.len(),
            lines.len() == i,
            forall|k: int| 0 <= k < i ==> (#[trigger] lines@[k])@ == missing_line(missing@[k]@),
        decreases missing.len() - i,
    {
        lines.push(missing_notice(missing[i].as_str()));
        i += 1;
    }
    assert(texts(lines@) =~= missing_lines(texts(missing@)));
    lines
}

/// Appends to `out` the lines that one entry contributes to the report.
pub fn render_entry(entry: &Entry, options: Options, out: &mut Vec<String>)
    ensures
        texts(final(out)@) == texts(old(out)@) + entry_lines(entry@, options),
{
    let ghost before = texts(out@);
    match &entry.record {
        DepRecord::Found(names) => {
            out.push(String::from_str(entry.id.text()));
            assert(texts(out@) =~= before + seq![entry@.id.text()]);
            if options.show_long {
                let ghost head = texts(out@);
                let mut i: usize = 0;
                while i < names.len()
                    invariant
                        i <= names.len(),
                        texts(out@) == head + arrow_lines(texts(names@).take(i as int)),
                    decreases names.len() - i,
                {
                    let mut line = String::from_str(" -> ");
                    line.append(names[i].as_str());
                    let ghost shown = texts(out@);
                    out.push(line);
                    proof {
                        let all = texts(names@);
                        assert(texts(out@) =~= shown.push(arrow_line(all[i as int])));
                        assert(arrow_lines(all.take(i + 1)) =~= arrow_lines(
                            all.take(i as int),
                        ).push(arrow_line(all[i as int])));
                        assert(texts(out@) =~= head + arrow_lines(all.take(i + 1)));
                    }
                    i += 1;
                }
                assert(texts(names@).take(i as int) =~= texts(names@));
                assert(texts(out@) =~= before + entry_lines(entry@, options));
            }
        },
        DepRecord::NotFound => {
            if !options.found_only {
                let mut line = String::from_str(entry.id.text());
                line.append(" (NOTFOUND)");
                out.push(line);
            }
            assert(texts(out@) =~= before + entry_lines(entry@, options));
        },
        DepRecord::Invalid(failure) => {
            let mut line = String::from_str(entry.id.text());
            line.append(" (Error: ");
            line.append(failure.detail.as_str());
            line.append(")");
            out.push(line);
            assert(texts(out@) =~= before + entry_lines(entry@, options));
        },
        DepRecord::Queued => {
            assert(texts(out@) =~= before + entry_lines(entry@, options));
        },
    }
}

/// The report on a classification, line by line.
pub fn render(map: &ClassMap, options: Options) -> (lines: Vec<String>)
    ensures
        texts(lines@) == rendered(map@, options),
{
    let mut lines: Vec<String> = Vec::new();
    let mut i: usize = 0;
    assert(texts(lines@) =~= rendered(map@.take(0), options));
    while i < map.len()
        invariant
            i <= map@.len(),
            texts(lines@) == rendered(map@.take(i as int), options),
        decreases map@.len() - i,
    {
        proof {
            assert(map@.take(i + 1).drop_last() =~= map@.take(i as int));
        }
        render_entry(map.entry(i), options, &mut lines);
        i += 1;
    }
    assert(map@.take(i as int) =~= map@);
    lines
}

} // verus!
