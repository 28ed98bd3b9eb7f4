//! The result store: two sets kept as text files, one entry per line.
//!
//! The hosts file holds one host per line, the services file one
//! `host:port:service` entry per line.  Reading and writing the files is left
//! to the caller.  The functions here take what a file holds (`None` for a
//! file that does not exist) and say what the sets are and what, if anything,
//! has to be written back.
//!
//! A set is kept as the list of its entries, each once, in the order in
//! which they first occur, so that what is written is a function of what
//! was read and of the entry that is saved.
//!
//! Creating the directory of the store is left to the caller too.  The
//! library names the directory, is told whether it is there, and decides
//! where the files lie.

use vstd::prelude::*;
use crate::text::{
    decimal_text, fields_of, free_of, is_digit, joined, lemma_decimal_text, lemma_fields_of,
    lemma_fields_of_prepend, lemma_joined_fields, lemma_lines_of, lemma_views_push, lines_of,
    parse_unsigned, push_all, push_decimal, same_text, split, split_lines, texts, to_chars,
    to_text, unsigned_of, views, without_cr,
};

verus! {

/// The name of the file that holds the discovered hosts.
pub const HOSTS_DB_FILE: &'static str = "network_scanner_hosts.db";

/// The name of the file that holds the discovered services.
pub const SERVICES_DB_FILE: &'static str = "network_scanner_services.db";

// ---------------------------------------------------------------------------
// Where the files are
// ---------------------------------------------------------------------------

/// The path of `name` inside the directory `base`.  Paths are texts whose
/// parts are divided by slashes, and `name` is taken as it stands.  An empty
/// `base` stands for the current directory.
pub open spec fn path_under(base: Seq<char>, name: Seq<char>) -> Seq<char> {
    if base.len() == 0 {
        name
    } else if base.last() == '/' {
        base + name
    } else {
        base + seq!['/'] + name
    }
}

/// The directory of the store: `.network_scanner` in the user's home
/// directory, or in `fallback` where the user has no home directory.
pub open spec fn store_directory_of(home: Option<Seq<char>>, fallback: Seq<char>) -> Seq<char> {
    let base = match home {
        Some(dir) => dir,
        None => fallback,
    };
    path_under(base, ".network_scanner"@)
}

/// The path of the store file `filename` in the directory of the store.
pub open spec fn db_path_of(home: Option<Seq<char>>, fallback: Seq<char>, filename: Seq<char>) -> Seq<
    char,
> {
    path_under(store_directory_of(home, fallback), filename)
}

/// The path of the store file `filename`.  Where the directory of the
/// store is there, or could be created, the file lies in it.  Where it
/// could not be created the store degrades to `fallback`: the file lies in
/// `fallback` itself.
pub open spec fn store_path_of(
    home: Option<Seq<char>>,
    fallback: Seq<char>,
    filename: Seq<char>,
    directory_ready: bool,
) -> Seq<char> {
    if directory_ready {
        db_path_of(home, fallback, filename)
    } else {
        path_under(fallback, filename)
    }
}

/// What `dirs::home_dir` answered.
enum HomeDirectory {
    /// The home directory of the user.
    Text(String),
    /// The user has a home directory, but its name is no text.
    NotText,
    /// The user has no home directory.
    Absent,
}

/// Asks `dirs::home_dir` for the home directory of the current user and
/// hands the answer on.  The answer depends on the environment of the
/// process, so nothing is claimed about it.
#[verifier::external_body]
fn home_dir() -> (home: HomeDirectory) {
    match dirs::home_dir() {
        Some(path) => match path.to_str() {
            Some(text) => HomeDirectory::Text(text.to_string()),
            None => HomeDirectory::NotText,
        },
        None => HomeDirectory::Absent,
    }
}

/// Extends the directory in `out` to the path of `name` inside it.
fn push_path(out: &mut Vec<char>, name: &Vec<char>)
    ensures
        final(out)@ == path_under(old(out)@, name@),
{
    let n = out.len();
    if n > 0 && out[n - 1] != '/' {
        out.push('/');
    }
    push_all(out, name);
}

/// The directory of the store, given the home directory of the user, if
/// there is one, and the directory to use if there is none.  This is the
/// directory that has to exist before a store file can lie in it.
pub fn db_directory_in(home: Option<&str>, fallback: &str) -> (directory: String)
    ensures
        directory@ == store_directory_of(
            match home {
                Some(dir) => Some(dir@),
                None => None,
            },
            fallback@,
        ),
{
    let mut out = match home {
        Some(dir) => to_chars(dir),
        None => to_chars(fallback),
    };
    let name = to_chars(".network_scanner");
    push_path(&mut out, &name);
    to_text(&out)
}

/// The path of the store file `filename` in the directory of the store,
/// given the home directory of the user, if there is one, and the directory
/// to use if there is none.
pub fn db_path_in(home: Option<&str>, fallback: &str, filename: &str) -> (path: String)
    ensures
        path@ == db_path_of(
            match home {
                Some(dir) => Some(dir@),
                None => None,
            },
            fallback@,
            filename@,
        ),
{
    let directory = db_directory_in(home, fallback);
    let mut out = to_chars(directory.as_str());
    let name = to_chars(filename);
    push_path(&mut out, &name);
    to_text(&out)
}

/// The path of the store file `filename` where the directory of the store
/// cannot be had: the file then lies in `fallback` itself.
pub fn degraded_db_path(fallback: &str, filename: &str) -> (path: String)
    ensures
        path@ == path_under(fallback@, filename@),
{
    let mut out = to_chars(fallback);
    let name = to_chars(filename);
    push_path(&mut out, &name);
    to_text(&out)
}

/// The path of the store file `filename`, given the home directory of the
/// user, if there is one, the directory to use if there is none, and
/// whether the directory of the store is there or could be created.  A
/// directory that could not be created does not stop the store: the file
/// then lies in `fallback` itself.
pub fn store_path_in(home: Option<&str>, fallback: &str, filename: &str, directory_ready: bool) -> (path:
    String)
    ensures
        path@ == store_path_of(
            match home {
                Some(dir) => Some(dir@),
                None => None,
            },
            fallback@,
            filename@,
            directory_ready,
        ),
{
    if directory_ready {
        db_path_in(home, fallback, filename)
    } else {
        degraded_db_path(fallback, filename)
    }
}

/// The directory of the store for the current user: the directory to
/// create, if it is missing, before the store is used.  `fallback` is the
/// directory to use where the user has no home directory, or one whose name
/// is no text.
pub fn get_db_directory(fallback: &str) -> (directory: String)
    ensures
        exists|home: Option<Seq<char>>| directory@ == store_directory_of(home, fallback@),
{
    let directory = match home_dir() {
        HomeDirectory::Text(dir) => {
            let directory = db_directory_in(Some(dir.as_str()), fallback);
            assert(directory@ == store_directory_of(Some(dir@), fallback@));
            directory
        },
        _ => {
            let directory = db_directory_in(None, fallback);
            assert(directory@ == store_directory_of(None, fallback@));
            directory
        },
    };
    directory
}

/// The path of the store file `filename` for the current user.  `fallback`
/// is the directory to use where the user has no home directory, or one
/// whose name is no text.  `directory_ready` says whether the directory of
/// the store is there or could be created; where it could not, the file
/// lies in `fallback` itself.
pub fn get_db_path(filename: &str, fallback: &str, directory_ready: bool) -> (path: String)
    ensures
        directory_ready ==> exists|home: Option<Seq<char>>|
            path@ == db_path_of(home, fallback@, filename@),
        !directory_ready ==> path@ == path_under(fallback@, filename@),
        exists|home: Option<Seq<char>>|
            path@ == store_path_of(home, fallback@, filename@, directory_ready),
{
    let path = match home_dir() {
        HomeDirectory::Text(dir) => {
            let path = store_path_in(Some(dir.as_str()), fallback, filename, directory_ready);
            assert(path@ == store_path_of(Some(dir@), fallback@, filename@, directory_ready));
            path
        },
        _ => {
            let path = store_path_in(None, fallback, filename, directory_ready);
            assert(path@ == store_path_of(None, fallback@, filename@, directory_ready));
            path
        },
    };
    path
}

// ---------------------------------------------------------------------------
// Entries of a file
// ---------------------------------------------------------------------------

/// What a file holds, as characters; `None` for a file that does not exist.
pub open spec fn contents_of(contents: Option<&str>) -> Option<Seq<char>> {
    match contents {
        Some(text) => Some(text@),
        None => None,
    }
}

/// The lines of a file; a file that does not exist has none.
pub open spec fn stored_lines(contents: Option<Seq<char>>) -> Seq<Seq<char>> {
    match contents {
        Some(text) => lines_of(text),
        None => Seq::empty(),
    }
}

/// `entries` without repetitions: each entry stays where it first occurs.
pub open spec fn distinct<A>(entries: Seq<A>) -> Seq<A>
    decreases entries.len(),
{
    if entries.len() == 0 {
        Seq::empty()
    } else {
        let init = distinct(entries.drop_last());
        if init.contains(entries.last()) {
            init
        } else {
            init.push(entries.last())
        }
    }
}

/// The set that a file stands for: its lines, each once.
pub open spec fn loaded(contents: Option<Seq<char>>) -> Seq<Seq<char>> {
    distinct(stored_lines(contents))
}

/// The text of a file that holds `entries`: each entry followed by a line
/// feed.
pub open spec fn rendered(entries: Seq<Seq<char>>) -> Seq<char>
    decreases entries.len(),
{
    if entries.len() == 0 {
        Seq::empty()
    } else {
        rendered(entries.drop_last()) + entries.last() + seq!['\n']
    }
}

/// What saving `entry` writes: nothing where the file already holds the
/// entry, else the whole set with the entry as its last line.
pub open spec fn saved(contents: Option<Seq<char>>, entry: Seq<char>) -> Option<Seq<char>> {
    if stored_lines(contents).contains(entry) {
        None
    } else {
        Some(rendered(loaded(contents).push(entry)))
    }
}

/// What the file holds after `entry` was saved.
pub open spec fn after_save(contents: Option<Seq<char>>, entry: Seq<char>) -> Option<Seq<char>> {
    match saved(contents, entry) {
        Some(text) => Some(text),
        None => contents,
    }
}

/// What the file holds after `entries` were saved one by one.
pub open spec fn after_saves(contents: Option<Seq<char>>, entries: Seq<Seq<char>>) -> Option<
    Seq<char>,
>
    decreases entries.len(),
{
    if entries.len() == 0 {
        contents
    } else {
        after_save(after_saves(contents, entries.drop_last()), entries.last())
    }
}

/// Whether an entry survives being written and read back: it holds no line
/// feed and does not end in a carriage return.
pub open spec fn storable(entry: Seq<char>) -> bool {
    free_of(entry, '\n') && without_cr(entry) == entry
}

/// Whether every line of the file is storable.  This holds of a file that
/// does not exist and of every file that this library wrote from storable
/// entries.
pub open spec fn clean(contents: Option<Seq<char>>) -> bool {
    forall|k: int|
        0 <= k < stored_lines(contents).len() ==> storable(#[trigger] stored_lines(contents)[k])
}

/// A list with one more entry holds what the list held, and that entry.
pub proof fn lemma_push_contains<A>(entries: Seq<A>, last: A, x: A)
    ensures
        entries.push(last).contains(x) <==> (entries.contains(x) || x == last),
{
    let longer = entries.push(last);
    if longer.contains(x) {
        let i = choose|i: int| 0 <= i < longer.len() && longer[i] == x;
        if i < entries.len() {
            assert(entries[i] == x);
        }
    }
    if entries.contains(x) {
        let i = choose|i: int| 0 <= i < entries.len() && entries[i] == x;
        assert(longer[i] == x);
    }
    if x == last {
        assert(longer[entries.len() as int] == x);
    }
}

/// `distinct` keeps exactly the entries that occur, each once.
pub proof fn lemma_distinct<A>(entries: Seq<A>)
    ensures
        distinct(entries).no_duplicates(),
        forall|x: A| distinct(entries).contains(x) <==> entries.contains(x),
        distinct(entries).to_set() == entries.to_set(),
        distinct(entries).len() <= entries.len(),
    decreases entries.len(),
{
    if entries.len() == 0 {
        assert(distinct(entries).to_set() =~= entries.to_set());
    } else {
        let init = entries.drop_last();
        let last = entries.last();
        lemma_distinct(init);
        let kept = distinct(init);
        assert(entries == init.push(last));
        assert forall|x: A| distinct(entries).contains(x) <==> entries.contains(x) by {
            lemma_push_contains(init, last, x);
            lemma_push_contains(kept, last, x);
        }
        assert(distinct(entries).to_set() =~= entries.to_set());
    }
}

/// Entries without repetitions are left as they are.
pub proof fn lemma_distinct_same<A>(entries: Seq<A>)
    requires
        entries.no_duplicates(),
    ensures
        distinct(entries) == entries,
    decreases entries.len(),
{
    if entries.len() > 0 {
        let init = entries.drop_last();
        lemma_distinct_same(init);
        if init.contains(entries.last()) {
            let i = choose|i: int| 0 <= i < init.len() && init[i] == entries.last();
            assert(entries[i] == entries[entries.len() - 1]);
        }
        assert(init.push(entries.last()) == entries);
    }
}

/// The text of a set with one more entry in front.
pub proof fn lemma_rendered_prepend(first: Seq<char>, rest: Seq<Seq<char>>)
    ensures
        rendered(seq![first] + rest) == first + seq!['\n'] + rendered(rest),
    decreases rest.len(),
{
    let all = seq![first] + rest;
    if rest.len() == 0 {
        assert(all.drop_last() == Seq::<Seq<char>>::empty());
        assert(rendered(all.drop_last()) == Seq::<char>::empty());
        assert(Seq::<char>::empty() + first == first);
        assert(rendered(all) == first + seq!['\n']);
        assert(rendered(rest) == Seq::<char>::empty());
        assert(rendered(all) == first + seq!['\n'] + rendered(rest));
    } else {
        lemma_rendered_prepend(first, rest.drop_last());
        assert(all.drop_last() == seq![first] + rest.drop_last());
        assert(all.last() == rest.last());
        assert(rendered(all) == first + seq!['\n'] + rendered(rest));
    }
}

/// The lines of `line`, a line feed and `tail`, where `line` holds no line
/// feed, are `line` without its carriage return, followed by the lines of
/// `tail`.
pub proof fn lemma_lines_of_prepend(line: Seq<char>, tail: Seq<char>)
    requires
        free_of(line, '\n'),
    ensures
        lines_of(line + seq!['\n'] + tail) == seq![without_cr(line)] + lines_of(tail),
{
    lemma_fields_of_prepend(line, '\n', tail);
    lemma_fields_of(tail, '\n');
    let whole = fields_of(line + seq!['\n'] + tail, '\n');
    let parts = fields_of(tail, '\n');
    assert(whole.last() == parts.last());
    assert(lines_of(line + seq!['\n'] + tail) =~= seq![without_cr(line)] + lines_of(tail));
}

/// A file written from entries that hold no line feed reads back as those
/// entries without their final carriage returns.
pub proof fn lemma_lines_after_write(entries: Seq<Seq<char>>)
    requires
        forall|k: int| 0 <= k < entries.len() ==> free_of(#[trigger] entries[k], '\n'),
    ensures
        lines_of(rendered(entries)).len() == entries.len(),
        forall|k: int|
            0 <= k < entries.len() ==> #[trigger] lines_of(rendered(entries))[k] == without_cr(
                entries[k],
            ),
    decreases entries.len(),
{
    if entries.len() == 0 {
        assert(fields_of(Seq::<char>::empty(), '\n') == seq![Seq::<char>::empty()]);
        assert(lines_of(rendered(entries)) =~= entries);
    } else {
        let first = entries[0];
        let rest = entries.drop_first();
        assert(entries == seq![first] + rest);
        assert forall|k: int| 0 <= k < rest.len() implies free_of(#[trigger] rest[k], '\n') by {
            assert(rest[k] == entries[k + 1]);
        }
        lemma_lines_after_write(rest);
        lemma_rendered_prepend(first, rest);
        lemma_lines_of_prepend(first, rendered(rest));
        assert forall|k: int| 0 <= k < entries.len() implies #[trigger] lines_of(
            rendered(entries),
        )[k] == without_cr(entries[k]) by {
            if k > 0 {
                assert(lines_of(rendered(entries))[k] == lines_of(rendered(rest))[k - 1]);
                assert(entries[k] == rest[k - 1]);
            }
        }
    }
}

/// A file written from storable entries reads back as those entries, in
/// the same order.
pub proof fn lemma_lines_of_rendered(entries: Seq<Seq<char>>)
    requires
        forall|k: int| 0 <= k < entries.len() ==> storable(#[trigger] entries[k]),
    ensures
        lines_of(rendered(entries)) == entries,
{
    lemma_lines_after_write(entries);
    assert(lines_of(rendered(entries)) =~= entries);
}

/// Saving a storable entry into a clean file leaves a clean file whose set
/// has gained exactly that entry.
pub proof fn lemma_save_then_load(contents: Option<Seq<char>>, entry: Seq<char>)
    requires
        clean(contents),
        storable(entry),
    ensures
        clean(after_save(contents, entry)),
        loaded(after_save(contents, entry)).to_set() == loaded(contents).to_set().insert(entry),
        saved(contents, entry) is Some ==> stored_lines(after_save(contents, entry)).no_duplicates(),
{
    lemma_distinct(stored_lines(contents));
    if stored_lines(contents).contains(entry) {
        assert(loaded(contents).to_set().insert(entry) =~= loaded(contents).to_set());
    } else {
        let kept = loaded(contents);
        let written = kept.push(entry);
        assert forall|k: int| 0 <= k < written.len() implies storable(#[trigger] written[k]) by {
            if k < kept.len() {
                assert(kept.contains(kept[k]));
                assert(stored_lines(contents).contains(kept[k]));
            }
        }
        lemma_lines_of_rendered(written);
        assert(stored_lines(after_save(contents, entry)) == written);
        assert(written.no_duplicates());
        lemma_distinct_same(written);
        assert(written.to_set() =~= kept.to_set().insert(entry)) by {
            assert forall|x: Seq<char>| written.contains(x) <==> (kept.contains(x) || x == entry) by {
                if written.contains(x) {
                    let i = choose|i: int| 0 <= i < written.len() && written[i] == x;
                    if i < kept.len() {
                        assert(kept[i] == x);
                    }
                }
                if kept.contains(x) {
                    let i = choose|i: int| 0 <= i < kept.len() && kept[i] == x;
                    assert(written[i] == x);
                }
                if x == entry {
                    assert(written[kept.len() as int] == x);
                }
            }
        }
    }
}

/// Saving the same storable entry twice in a row: the second call finds the
/// entry and writes nothing, so the set is what the first call left.
pub proof fn lemma_save_idempotent(contents: Option<Seq<char>>, entry: Seq<char>)
    requires
        storable(entry),
    ensures
        saved(after_save(contents, entry), entry) is None,
        after_save(after_save(contents, entry), entry) == after_save(contents, entry),
        loaded(after_save(after_save(contents, entry), entry)) == loaded(after_save(contents, entry)),
{
    if !stored_lines(contents).contains(entry) {
        let kept = loaded(contents);
        let written = kept.push(entry);
        lemma_distinct(stored_lines(contents));
        assert forall|k: int| 0 <= k < written.len() implies free_of(#[trigger] written[k], '\n') by {
            if k < kept.len() {
                assert(kept.contains(kept[k]));
                let line = kept[k];
                assert(stored_lines(contents).contains(line));
                let j = choose|j: int|
                    0 <= j < stored_lines(contents).len() && stored_lines(contents)[j] == line;
                match contents {
                    Some(text) => {
                        lemma_lines_of(text);
                        assert(free_of(lines_of(text)[j], '\n'));
                    },
                    None => {},
                }
            }
        }
        lemma_lines_after_write(written);
        let back = stored_lines(after_save(contents, entry));
        assert(back[kept.len() as int] == without_cr(written[kept.len() as int]));
        assert(back.contains(entry));
    }
}

/// Round trip: a store that started empty and had storable entries saved
/// into it, in any order and with any repetitions, loads as exactly the set
/// of those entries.
pub proof fn lemma_saved_entries_load(entries: Seq<Seq<char>>)
    requires
        forall|k: int| 0 <= k < entries.len() ==> storable(#[trigger] entries[k]),
    ensures
        clean(after_saves(None, entries)),
        loaded(after_saves(None, entries)).to_set() == entries.to_set(),
    decreases entries.len(),
{
    if entries.len() == 0 {
        assert(loaded(None).to_set() =~= entries.to_set());
    } else {
        let init = entries.drop_last();
        let last = entries.last();
        assert forall|k: int| 0 <= k < init.len() implies storable(#[trigger] init[k]) by {
            assert(init[k] == entries[k]);
        }
        lemma_saved_entries_load(init);
        lemma_save_then_load(after_saves(None, init), last);
        assert(init.to_set().insert(last) =~= entries.to_set()) by {
            assert forall|x: Seq<char>| entries.contains(x) <==> (init.contains(x) || x == last) by {
                if entries.contains(x) {
                    let i = choose|i: int| 0 <= i < entries.len() && entries[i] == x;
                    if i < init.len() {
                        assert(init[i] == x);
                    }
                }
                if init.contains(x) {
                    let i = choose|i: int| 0 <= i < init.len() && init[i] == x;
                    assert(entries[i] == x);
                }
                if x == last {
                    assert(entries[entries.len() - 1] == x);
                }
            }
        }
    }
}

/// Whether `entries` holds `entry`.
fn holds(entries: &Vec<Vec<char>>, entry: &Vec<char>) -> (found: bool)
    ensures
        found == views(entries@).contains(entry@),
{
    let mut i: usize = 0;
    while i < entries.len()
        invariant
            i <= entries@.len(),
            forall|k: int| 0 <= k < i ==> views(entries@)[k] != entry@,
        decreases entries@.len() - i,
    {
        if same_text(&entries[i], entry) {
            assert(views(entries@)[i as int] == entry@);
            return true;
        }
        i += 1;
    }
    false
}

/// `entries` without repetitions.
fn unique(entries: Vec<Vec<char>>) -> (kept: Vec<Vec<char>>)
    ensures
        views(kept@) == distinct(views(entries@)),
{
    let mut kept: Vec<Vec<char>> = Vec::new();
    let mut i: usize = 0;
    assert(views(entries@).take(0) == Seq::<Seq<char>>::empty());
    assert(views(kept@) == Seq::<Seq<char>>::empty());
    while i < entries.len()
        invariant
            i <= entries@.len(),
            views(kept@) == distinct(views(entries@).take(i as int)),
        decreases entries@.len() - i,
    {
        let entry = entries[i].clone();
        proof {
            let seen = views(entries@).take(i + 1);
            assert(seen.drop_last() == views(entries@).take(i as int));
            assert(seen.last() == entry@);
        }
        if !holds(&kept, &entry) {
            proof {
                lemma_views_push(kept@, entry);
            }
            kept.push(entry);
        }
        i += 1;
    }
    assert(views(entries@).take(entries@.len() as int) == views(entries@));
    kept
}

/// The entries of a file, each once, in the order of their first lines.
fn load(contents: Option<&str>) -> (entries: Vec<Vec<char>>)
    ensures
        views(entries@) == loaded(contents_of(contents)),
{
    match contents {
        Some(text) => {
            let chars = to_chars(text);
            unique(split_lines(&chars))
        },
        None => {
            let entries: Vec<Vec<char>> = Vec::new();
            assert(views(entries@) == Seq::<Seq<char>>::empty());
            entries
        },
    }
}

/// The text of a file that holds `entries`.
fn render(entries: &Vec<Vec<char>>) -> (out: Vec<char>)
    ensures
        out@ == rendered(views(entries@)),
{
    let mut out: Vec<char> = Vec::new();
    let mut i: usize = 0;
    assert(views(entries@).take(0) == Seq::<Seq<char>>::empty());
    while i < entries.len()
        invariant
            i <= entries@.len(),
            out@ == rendered(views(entries@).take(i as int)),
        decreases entries@.len() - i,
    {
        proof {
            let seen = views(entries@).take(i + 1);
            assert(seen.drop_last() == views(entries@).take(i as int));
            assert(seen.last() == entries@[i as int]@);
        }
        push_all(&mut out, &entries[i]);
        out.push('\n');
        i += 1;
    }
    assert(views(entries@).take(entries@.len() as int) == views(entries@));
    out
}

/// What has to be written so that the file holds `entry` too, or `None`
/// where it already does.
fn save(contents: Option<&str>, entry: Vec<char>) -> (written: Option<String>)
    ensures
        match written {
            Some(text) => saved(contents_of(contents), entry@) == Some(text@),
            None => saved(contents_of(contents), entry@) is None,
        },
{
    let mut entries = load(contents);
    proof {
        lemma_distinct(stored_lines(contents_of(contents)));
    }
    if holds(&entries, &entry) {
        None
    } else {
        proof {
            lemma_views_push(entries@, entry);
        }
        entries.push(entry);
        let out = render(&entries);
        Some(to_text(&out))
    }
}

// ---------------------------------------------------------------------------
// Hosts
// ---------------------------------------------------------------------------

/// The hosts that the hosts file holds, each once, in the order of their
/// first lines.  `contents` is the text of the file, or `None` where the
/// file does not exist: such a store is empty.
pub fn load_hosts(contents: Option<&str>) -> (hosts: Vec<String>)
    ensures
        texts(hosts@) == loaded(contents_of(contents)),
        texts(hosts@).no_duplicates(),
        contents is None ==> hosts@.len() == 0,
{
    let entries = load(contents);
    proof {
        lemma_distinct(stored_lines(contents_of(contents)));
    }
    let mut hosts: Vec<String> = Vec::new();
    let mut i: usize = 0;
    while i < entries.len()
        invariant
            i <= entries@.len(),
            texts(hosts@) == views(entries@).take(i as int),
        decreases entries@.len() - i,
    {
        let host = to_text(&entries[i]);
        proof {
            assert(texts(hosts@.push(host)) =~= texts(hosts@).push(host@));
            assert(views(entries@).take(i + 1) =~= views(entries@).take(i as int).push(
                entries@[i as int]@,
            ));
        }
        hosts.push(host);
        i += 1;
    }
    assert(views(entries@).take(entries@.len() as int) == views(entries@));
    hosts
}

/// Adds `host` to the hosts file.  `contents` is the text of the file, or
/// `None` where the file does not exist.  Where the file already holds the
/// host the answer is `None` and the file is to be left untouched; else the
/// answer is the new text of the whole file: the hosts it held, each once,
/// and the new host last.
pub fn save_host(contents: Option<&str>, host: &str) -> (written: Option<String>)
    ensures
        match written {
            Some(text) => saved(contents_of(contents), host@) == Some(text@),
            None => saved(contents_of(contents), host@) is None,
        },
        written is None <==> stored_lines(contents_of(contents)).contains(host@),
{
    save(contents, to_chars(host))
}

// ---------------------------------------------------------------------------
// Services
// ---------------------------------------------------------------------------

/// The line that stands for a service: host, port in decimal and service
/// label, with a colon between them.
pub open spec fn service_entry(host: Seq<char>, port: u16, service: Seq<char>) -> Seq<char> {
    host + seq![':'] + decimal_text(port as nat) + seq![':'] + service
}

/// The service that a line stands for, if it stands for one: the line has
/// three or more fields between colons, the first is the host, the second
/// is the port, a number up to 65535, and all that follows the second colon
/// is the service label.
pub open spec fn service_of(line: Seq<char>) -> Option<(Seq<char>, u16, Seq<char>)> {
    let fields = fields_of(line, ':');
    if fields.len() >= 3 {
        match unsigned_of(fields[1], 65535) {
            Some(port) => Some((fields[0], port as u16, joined(fields.skip(2), ':'))),
            None => None,
        }
    } else {
        None
    }
}

/// The services that `lines` stand for, in order; lines that stand for
/// none are passed over.
pub open spec fn services_of(lines: Seq<Seq<char>>) -> Seq<(Seq<char>, u16, Seq<char>)>
    decreases lines.len(),
{
    if lines.len() == 0 {
        Seq::empty()
    } else {
        let init = services_of(lines.drop_last());
        match service_of(lines.last()) {
            Some(service) => init.push(service),
            None => init,
        }
    }
}

/// The services as mathematical values.
pub open spec fn service_views(services: Seq<(String, u16, String)>) -> Seq<
    (Seq<char>, u16, Seq<char>),
> {
    Seq::new(services.len(), |i: int| (services[i].0@, services[i].1, services[i].2@))
}

/// The line of a service whose host holds no colon stands for that
/// service.
pub proof fn lemma_service_entry_reads_back(host: Seq<char>, port: u16, service: Seq<char>)
    requires
        free_of(host, ':'),
    ensures
        service_of(service_entry(host, port, service)) == Some((host, port, service)),
{
    let number = decimal_text(port as nat);
    lemma_decimal_text(port as nat);
    assert(free_of(number, ':')) by {
        assert forall|i: int| 0 <= i < number.len() implies number[i] != ':' by {
            assert(is_digit(number[i]));
        }
    }
    assert(is_digit(number[0]));
    let tail = number + seq![':'] + service;
    lemma_fields_of_prepend(number, ':', service);
    lemma_fields_of_prepend(host, ':', tail);
    lemma_fields_of(service, ':');
    lemma_joined_fields(service, ':');
    let entry = service_entry(host, port, service);
    assert(entry =~= host + seq![':'] + tail);
    let fields = fields_of(entry, ':');
    assert(fields =~= seq![host] + (seq![number] + fields_of(service, ':')));
    assert(fields.skip(2) =~= fields_of(service, ':'));
    assert(fields[0] == host);
    assert(fields[1] == number);
}

/// A service is among the services of some lines exactly if one of the
/// lines stands for it.
pub proof fn lemma_services_of(lines: Seq<Seq<char>>, service: (Seq<char>, u16, Seq<char>))
    ensures
        services_of(lines).contains(service) <==> exists|k: int|
            0 <= k < lines.len() && service_of(#[trigger] lines[k]) == Some(service),
    decreases lines.len(),
{
    if lines.len() > 0 {
        let init = lines.drop_last();
        lemma_services_of(init, service);
        match service_of(lines.last()) {
            Some(found) => {
                lemma_push_contains(services_of(init), found, service);
            },
            None => {},
        }
        if exists|k: int| 0 <= k < lines.len() && service_of(#[trigger] lines[k]) == Some(service) {
            let k = choose|k: int|
                0 <= k < lines.len() && service_of(#[trigger] lines[k]) == Some(service);
            if k < init.len() {
                assert(service_of(init[k]) == Some(service));
            }
        }
        if exists|k: int| 0 <= k < init.len() && service_of(#[trigger] init[k]) == Some(service) {
            let k = choose|k: int|
                0 <= k < init.len() && service_of(#[trigger] init[k]) == Some(service);
            assert(service_of(lines[k]) == Some(service));
        }
    }
}

/// A service that was saved is found when the services are loaded, provided
/// that its host holds no colon and its line is storable.
pub proof fn lemma_saved_service_loads(
    contents: Option<Seq<char>>,
    host: Seq<char>,
    port: u16,
    service: Seq<char>,
)
    requires
        free_of(host, ':'),
        storable(service_entry(host, port, service)),
    ensures
        distinct(
            services_of(stored_lines(after_save(contents, service_entry(host, port, service)))),
        ).contains((host, port, service)),
{
    let entry = service_entry(host, port, service);
    let lines = stored_lines(after_save(contents, entry));
    lemma_save_idempotent(contents, entry);
    assert(lines.contains(entry));
    let k = choose|k: int| 0 <= k < lines.len() && lines[k] == entry;
    lemma_service_entry_reads_back(host, port, service);
    assert(service_of(lines[k]) == Some((host, port, service)));
    lemma_services_of(lines, (host, port, service));
    lemma_distinct(services_of(lines));
}

/// The fields from the third on, joined by colons.
fn join_rest(fields: &Vec<Vec<char>>) -> (out: Vec<char>)
    requires
        fields@.len() >= 3,
    ensures
        out@ == joined(views(fields@).skip(2), ':'),
{
    let ghost rest = views(fields@).skip(2);
    let mut out: Vec<char> = fields[2].clone();
    let mut i: usize = 3;
    proof {
        assert(rest.take(1).len() == 1);
        assert(rest.take(1)[0] == fields@[2]@);
    }
    while i < fields.len()
        invariant
            3 <= i <= fields@.len(),
            rest == views(fields@).skip(2),
            out@ == joined(rest.take(i - 2), ':'),
        decreases fields@.len() - i,
    {
        proof {
            let seen = rest.take(i - 1);
            assert(seen.drop_last() == rest.take(i - 2));
            assert(seen.last() == fields@[i as int]@);
        }
        out.push(':');
        push_all(&mut out, &fields[i]);
        i += 1;
    }
    assert(rest.take(fields@.len() - 2) == rest);
    out
}

/// Reads one line of the services file.
fn parse_service(line: &Vec<char>) -> (service: Option<(String, u16, String)>)
    ensures
        match service {
            Some(s) => service_of(line@) == Some((s.0@, s.1, s.2@)),
            None => service_of(line@) is None,
        },
{
    let fields = split(line, ':');
    if fields.len() < 3 {
        return None;
    }
    assert(views(fields@)[1] == fields@[1]@);
    assert(views(fields@)[0] == fields@[0]@);
    match parse_unsigned(&fields[1], 65535) {
        Some(port) => {
            let host = to_text(&fields[0]);
            let label = join_rest(&fields);
            Some((host, port as u16, to_text(&label)))
        },
        None => None,
    }
}

/// Whether `services` holds `service`.
fn holds_service(services: &Vec<(String, u16, String)>, service: &(String, u16, String)) -> (found:
    bool)
    ensures
        found == service_views(services@).contains((service.0@, service.1, service.2@)),
{
    let mut i: usize = 0;
    while i < services.len()
        invariant
            i <= services@.len(),
            forall|k: int|
                0 <= k < i ==> service_views(services@)[k] != (service.0@, service.1, service.2@),
        decreases services@.len() - i,
    {
        let other = &services[i];
        if other.0 == service.0 && other.1 == service.1 && other.2 == service.2 {
            assert(service_views(services@)[i as int] == (service.0@, service.1, service.2@));
            return true;
        }
        i += 1;
    }
    false
}

/// The services that the services file holds, each once, in the order of
/// their first lines.  `contents` is the text of the file, or `None` where
/// the file does not exist: such a store is empty.  Lines that stand for no
/// service are passed over.
pub fn load_services(contents: Option<&str>) -> (services: Vec<(String, u16, String)>)
    ensures
        service_views(services@) == distinct(services_of(stored_lines(contents_of(contents)))),
        service_views(services@).no_duplicates(),
        contents is None ==> services@.len() == 0,
{
    let lines = match contents {
        Some(text) => {
            let chars = to_chars(text);
            split_lines(&chars)
        },
        None => Vec::new(),
    };
    assert(views(lines@) == stored_lines(contents_of(contents)));
    let mut services: Vec<(String, u16, String)> = Vec::new();
    let mut i: usize = 0;
    assert(views(lines@).take(0) == Seq::<Seq<char>>::empty());
    assert(service_views(services@) == Seq::<(Seq<char>, u16, Seq<char>)>::empty());
    while i < lines.len()
        invariant
            i <= lines@.len(),
            service_views(services@) == distinct(services_of(views(lines@).take(i as int))),
        decreases lines@.len() - i,
    {
        proof {
            let seen = views(lines@).take(i + 1);
            assert(seen.drop_last() == views(lines@).take(i as int));
            assert(seen.last() == lines@[i as int]@);
        }
        match parse_service(&lines[i]) {
            Some(service) => {
                let ghost found = services_of(views(lines@).take(i as int));
                proof {
                    let value = (service.0@, service.1, service.2@);
                    assert(found.push(value).drop_last() == found);
                }
                if !holds_service(&services, &service) {
                    proof {
                        assert(service_views(services@.push(service)) == service_views(
                            services@,
                        ).push((service.0@, service.1, service.2@)));
                    }
                    services.push(service);
                }
            },
            None => {},
        }
        i += 1;
    }
    assert(views(lines@).take(lines@.len() as int) == views(lines@));
    proof {
        lemma_distinct(services_of(stored_lines(contents_of(contents))));
    }
    services
}

/// Adds the service `host:port:service` to the services file.  `contents`
/// is the text of the file, or `None` where the file does not exist.  Where
/// the file already holds that very line the answer is `None` and the file
/// is to be left untouched; else the answer is the new text of the whole
/// file: the lines it held, each once, and the new line last.
pub fn save_service(contents: Option<&str>, host: &str, port: u16, service: &str) -> (written:
    Option<String>)
    ensures
        match written {
            Some(text) => saved(contents_of(contents), service_entry(host@, port, service@)) == Some(
                text@,
            ),
            None => saved(contents_of(contents), service_entry(host@, port, service@)) is None,
        },
        written is None <==> stored_lines(contents_of(contents)).contains(
            service_entry(host@, port, service@),
        ),
{
    let mut entry = to_chars(host);
    entry.push(':');
    push_decimal(&mut entry, port as u32);
    entry.push(':');
    let label = to_chars(service);
    push_all(&mut entry, &label);
    assert(entry@ == service_entry(host@, port, service@));
    save(contents, entry)
}

} // verus!
