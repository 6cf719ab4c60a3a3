use vstd::prelude::*;

use crate::text::chars_of;

verus! {

/// Index of the last `c` in `s`, or -1.
pub open spec fn last_index(s: Seq<char>, c: char) -> int
    decreases s.len(),
{
    if s.len() == 0 {
        -1
    } else if s.last() == c {
        s.len() - 1
    } else {
        last_index(s.drop_last(), c)
    }
}

/// Whether a file name has extension `ext`: the text after its last `.`, where that `.`
/// is not the name's first character.
pub open spec fn has_extension(name: Seq<char>, ext: Seq<char>) -> bool {
    let k = last_index(name, '.');
    k > 0 && name.skip(k + 1) == ext
}

/// The names of the entries that are not directories and have extension `ext`, in
/// listing order. An entry is its name and whether it is a directory.
pub open spec fn matching(entries: Seq<(Seq<char>, bool)>, ext: Seq<char>) -> Seq<Seq<char>>
    decreases entries.len(),
{
    if entries.len() == 0 {
        seq![]
    } else {
        let m = matching(entries.drop_last(), ext);
        let e = entries.last();
        if !e.1 && has_extension(e.0, ext) {
            m.push(e.0)
        } else {
            m
        }
    }
}

/// The names of a listing, in order.
pub open spec fn entry_names(entries: Seq<(Seq<char>, bool)>) -> Seq<Seq<char>> {
    entries.map_values(|e: (Seq<char>, bool)| e.0)
}

pub open spec fn min_of(a: int, b: int) -> int {
    if a < b {
        a
    } else {
        b
    }
}

/// The paths (`prefix` + name) of the first `max` non-directory entries with extension
/// `ext`.
pub open spec fn sources(prefix: Seq<char>, entries: Seq<(Seq<char>, bool)>, ext: Seq<char>, max: int) -> Seq<Seq<char>> {
    let m = matching(entries, ext);
    m.take(min_of(max, m.len() as int)).map_values(|n: Seq<char>| prefix + n)
}

/// An ecosystem's contribution: its marker and its sources, where the marker is present.
pub open spec fn ecosystem(present: bool, marker: Seq<char>, files: Seq<Seq<char>>) -> Seq<Seq<char>> {
    if present {
        seq![marker] + files
    } else {
        seq![]
    }
}

/// The Rust part of the result: `Cargo.toml` and a sample of `src/*.rs`.
pub open spec fn rust_part(root: Seq<(Seq<char>, bool)>, src: Seq<(Seq<char>, bool)>, max: int) -> Seq<Seq<char>> {
    ecosystem(entry_names(root).contains("Cargo.toml"@), "Cargo.toml"@, sources("src/"@, src, "rs"@, max))
}

/// The Python part: `pyproject.toml` and a sample of `src/*.py`.
pub open spec fn python_part(root: Seq<(Seq<char>, bool)>, src: Seq<(Seq<char>, bool)>, max: int) -> Seq<Seq<char>> {
    ecosystem(entry_names(root).contains("pyproject.toml"@), "pyproject.toml"@, sources("src/"@, src, "py"@, max))
}

/// The Node part: `package.json`, a sample of `src/*.js` and one of `src/*.ts`.
pub open spec fn node_part(root: Seq<(Seq<char>, bool)>, src: Seq<(Seq<char>, bool)>, max: int) -> Seq<Seq<char>> {
    ecosystem(
        entry_names(root).contains("package.json"@),
        "package.json"@,
        sources("src/"@, src, "js"@, max) + sources("src/"@, src, "ts"@, max),
    )
}

/// The Go part: `go.mod` and a sample of the top level's `*.go`.
pub open spec fn go_part(root: Seq<(Seq<char>, bool)>, max: int) -> Seq<Seq<char>> {
    ecosystem(entry_names(root).contains("go.mod"@), "go.mod"@, sources(""@, root, "go"@, max))
}

/// The project files of a working directory whose top level lists `root` and whose `src`
/// directory lists `src`, with at most `max` source files per extension. A marker counts
/// when an entry of that name exists, of whatever kind.
pub open spec fn project_files(root: Seq<(Seq<char>, bool)>, src: Seq<(Seq<char>, bool)>, max: int) -> Seq<Seq<char>> {
    rust_part(root, src, max) + python_part(root, src, max) + node_part(root, src, max) + go_part(root, max)
}

/// Every name that `matching` keeps has the extension and is the name of an entry of the
/// listing that is not a directory.
pub proof fn lemma_matching_has_extension(entries: Seq<(Seq<char>, bool)>, ext: Seq<char>)
    ensures
        forall|k: int| 0 <= k < matching(entries, ext).len() ==> has_extension(#[trigger] matching(entries, ext)[k], ext),
        forall|k: int| 0 <= k < matching(entries, ext).len() ==> exists|i: int|
            0 <= i < entries.len() && entries[i] == (#[trigger] matching(entries, ext)[k], false),
    decreases entries.len(),
{
    if entries.len() > 0 {
        let prev = entries.drop_last();
        lemma_matching_has_extension(prev, ext);
        let m = matching(prev, ext);
        let all = matching(entries, ext);
        assert forall|k: int| 0 <= k < all.len() implies has_extension(#[trigger] all[k], ext) && exists|i: int|
            0 <= i < entries.len() && entries[i] == (all[k], false) by {
            if k < m.len() {
                assert(all[k] == m[k]);
                let i = choose|i: int| 0 <= i < prev.len() && prev[i] == (#[trigger] m[k], false);
                assert(entries[i] == prev[i]);
            } else {
                assert(entries[entries.len() - 1] == (all[k], false));
            }
        }
    }
}

/// When the listing names no entry twice, `matching` names none twice.
pub proof fn lemma_matching_distinct(entries: Seq<(Seq<char>, bool)>, ext: Seq<char>)
    requires
        entry_names(entries).no_duplicates(),
    ensures
        matching(entries, ext).no_duplicates(),
    decreases entries.len(),
{
    if entries.len() > 0 {
        let prev = entries.drop_last();
        assert(entry_names(prev) =~= entry_names(entries).drop_last());
        lemma_matching_distinct(prev, ext);
        lemma_matching_has_extension(prev, ext);
        let m = matching(prev, ext);
        let last = entries.last();
        if !last.1 && has_extension(last.0, ext) {
            assert forall|k: int| 0 <= k < m.len() implies #[trigger] m[k] != last.0 by {
                let i = choose|i: int| 0 <= i < prev.len() && prev[i] == (#[trigger] m[k], false);
                assert(entry_names(entries)[i] == m[k]);
                assert(entry_names(entries)[entries.len() - 1] == last.0);
            }
            let all = m.push(last.0);
            assert forall|a: int, b: int| 0 <= a < all.len() && 0 <= b < all.len() && a != b implies all[a] != all[b] by {
                if a < m.len() && b < m.len() {
                    assert(all[a] == m[a] && all[b] == m[b]);
                } else if a < m.len() {
                    assert(all[a] == m[a]);
                } else if b < m.len() {
                    assert(all[b] == m[b]);
                }
            }
        }
    }
}

/// The sample holds `min(max, matches)` paths, each the prefix followed by the name of a
/// non-directory entry with the extension; a zero cap gives no path; and where the
/// listing names no entry twice, no path comes twice.
pub proof fn lemma_sources_capped(prefix: Seq<char>, entries: Seq<(Seq<char>, bool)>, ext: Seq<char>, max: int)
    requires
        max >= 0,
    ensures
        sources(prefix, entries, ext, max).len() == min_of(max, matching(entries, ext).len() as int),
        max == 0 ==> sources(prefix, entries, ext, max) == Seq::<Seq<char>>::empty(),
        forall|k: int| 0 <= k < sources(prefix, entries, ext, max).len() ==>
            #[trigger] sources(prefix, entries, ext, max)[k] == prefix + matching(entries, ext)[k]
            && has_extension(matching(entries, ext)[k], ext)
            && exists|i: int| 0 <= i < entries.len() && entries[i] == (matching(entries, ext)[k], false),
        entry_names(entries).no_duplicates() ==> sources(prefix, entries, ext, max).no_duplicates(),
{
    lemma_matching_has_extension(entries, ext);
    let m = matching(entries, ext);
    let s = sources(prefix, entries, ext, max);
    if max == 0 {
        assert(s =~= Seq::<Seq<char>>::empty());
    }
    assert forall|k: int| 0 <= k < s.len() implies #[trigger] s[k] == prefix + m[k]
        && has_extension(m[k], ext)
        && exists|i: int| 0 <= i < entries.len() && entries[i] == (m[k], false) by {
        assert(has_extension(m[k], ext));
    }
    if entry_names(entries).no_duplicates() {
        lemma_matching_distinct(entries, ext);
        assert forall|a: int, b: int| 0 <= a < s.len() && 0 <= b < s.len() && a != b implies s[a] != s[b] by {
            if s[a] == s[b] {
                assert((prefix + m[a]).skip(prefix.len() as int) =~= m[a]);
                assert((prefix + m[b]).skip(prefix.len() as int) =~= m[b]);
            }
        }
    }
}

/// Each listed marker stands in the result directly before its ecosystem's sample, whatever
/// the cap.
#[verifier::spinoff_prover]
pub proof fn lemma_marker_always_listed(root: Seq<(Seq<char>, bool)>, src: Seq<(Seq<char>, bool)>, max: int)
    requires
        max >= 0,
    ensures
        entry_names(root).contains("Cargo.toml"@) ==> exists|a: Seq<Seq<char>>, b: Seq<Seq<char>>|
            project_files(root, src, max) == a + seq!["Cargo.toml"@] + sources("src/"@, src, "rs"@, max) + b,
        entry_names(root).contains("pyproject.toml"@) ==> exists|a: Seq<Seq<char>>, b: Seq<Seq<char>>|
            project_files(root, src, max) == a + seq!["pyproject.toml"@] + sources("src/"@, src, "py"@, max) + b,
        entry_names(root).contains("package.json"@) ==> exists|a: Seq<Seq<char>>, b: Seq<Seq<char>>|
            project_files(root, src, max) == a + seq!["package.json"@] + sources("src/"@, src, "js"@, max)
                + sources("src/"@, src, "ts"@, max) + b,
        entry_names(root).contains("go.mod"@) ==> exists|a: Seq<Seq<char>>, b: Seq<Seq<char>>|
            project_files(root, src, max) == a + seq!["go.mod"@] + sources(""@, root, "go"@, max) + b,
{
    let r = rust_part(root, src, max);
    let p = python_part(root, src, max);
    let n = node_part(root, src, max);
    let g = go_part(root, max);
    let all = project_files(root, src, max);
    let e = Seq::<Seq<char>>::empty();
    assert(all == r + p + n + g);
    if entry_names(root).contains("Cargo.toml"@) {
        let sample = sources("src/"@, src, "rs"@, max);
        assert(r == seq!["Cargo.toml"@] + sample);
        assert(all =~= e + seq!["Cargo.toml"@] + sample + (p + n + g));
    }
    if entry_names(root).contains("pyproject.toml"@) {
        let sample = sources("src/"@, src, "py"@, max);
        assert(p == seq!["pyproject.toml"@] + sample);
        assert(all =~= r + seq!["pyproject.toml"@] + sample + (n + g));
    }
    if entry_names(root).contains("package.json"@) {
        let js = sources("src/"@, src, "js"@, max);
        let ts = sources("src/"@, src, "ts"@, max);
        assert(n == seq!["package.json"@] + (js + ts));
        assert(all =~= (r + p) + seq!["package.json"@] + js + ts + g);
    }
    if entry_names(root).contains("go.mod"@) {
        let sample = sources(""@, root, "go"@, max);
        assert(g == seq!["go.mod"@] + sample);
        assert(all =~= (r + p + n) + seq!["go.mod"@] + sample + e);
    }
}

/// With the Rust and Go markers listed and no other, the result is the Rust marker, the
/// Rust sample, the Go marker and the Go sample: every path between the two markers is
/// `src/` and a Rust file's name, every path after `go.mod` a top-level Go file's name.
pub proof fn lemma_rust_and_go(root: Seq<(Seq<char>, bool)>, src: Seq<(Seq<char>, bool)>, max: int)
    requires
        max >= 0,
        entry_names(root).contains("Cargo.toml"@),
        entry_names(root).contains("go.mod"@),
        !entry_names(root).contains("pyproject.toml"@),
        !entry_names(root).contains("package.json"@),
    ensures
        project_files(root, src, max) == seq!["Cargo.toml"@] + sources("src/"@, src, "rs"@, max)
            + seq!["go.mod"@] + sources(""@, root, "go"@, max),
        project_files(root, src, max)[1 + sources("src/"@, src, "rs"@, max).len() as int] == "go.mod"@,
        forall|k: int| 0 <= k < sources("src/"@, src, "rs"@, max).len() ==>
            #[trigger] project_files(root, src, max)[1 + k] == "src/"@ + matching(src, "rs"@)[k]
            && has_extension(matching(src, "rs"@)[k], "rs"@),
        forall|k: int| 0 <= k < sources(""@, root, "go"@, max).len() ==>
            #[trigger] project_files(root, src, max)[2 + sources("src/"@, src, "rs"@, max).len() as int + k]
                == matching(root, "go"@)[k]
            && has_extension(matching(root, "go"@)[k], "go"@),
{
    lemma_sources_capped("src/"@, src, "rs"@, max);
    lemma_sources_capped(""@, root, "go"@, max);
    let rs = sources("src/"@, src, "rs"@, max);
    let go = sources(""@, root, "go"@, max);
    let all = project_files(root, src, max);
    assert(all =~= seq!["Cargo.toml"@] + rs + seq!["go.mod"@] + go);
    assert forall|k: int| 0 <= k < rs.len() implies #[trigger] all[1 + k] == "src/"@ + matching(src, "rs"@)[k]
        && has_extension(matching(src, "rs"@)[k], "rs"@) by {
        assert(all[1 + k] == rs[k]);
    }
    assert forall|k: int| 0 <= k < go.len() implies #[trigger] all[2 + rs.len() as int + k] == matching(root, "go"@)[k]
        && has_extension(matching(root, "go"@)[k], "go"@) by {
        assert(all[2 + rs.len() as int + k] == go[k]);
        reveal_strlit("");
        assert(""@ + matching(root, "go"@)[k] =~= matching(root, "go"@)[k]);
    }
}

pub open spec fn names_view(names: Seq<String>) -> Seq<Seq<char>> {
    names.map_values(|s: String| s@)
}

/// An entry of a directory listing.
pub struct ListedEntry {
    pub name: String,
    pub is_dir: bool,
}

impl View for ListedEntry {
    type V = (Seq<char>, bool);

    open spec fn view(&self) -> (Seq<char>, bool) {
        (self.name@, self.is_dir)
    }
}

pub open spec fn listing_view(entries: Seq<ListedEntry>) -> Seq<(Seq<char>, bool)> {
    entries.map_values(|e: ListedEntry| e@)
}

/// The entries of a working directory and of its `src` directory, in listing order
/// (empty where a directory is missing or unreadable).
pub struct ProjectListing {
    pub root_entries: Vec<ListedEntry>,
    pub src_entries: Vec<ListedEntry>,
}

/// Whether `name` has extension `ext`, as `Path::extension` reads a file name.
pub fn extension_matches(name: &str, ext: &str) -> (r: bool)
    ensures
        r == has_extension(name@, ext@),
{
    let cs = chars_of(name);
    let es = chars_of(ext);
    let mut i: usize = cs.len();
    assert(cs@.take(i as int) =~= cs@);
    while i > 0 && cs[i - 1] != '.'
        invariant
            i <= cs@.len(),
            last_index(cs@, '.') == last_index(cs@.take(i as int), '.'),
        decreases i,
    {
        assert(cs@.take(i as int).drop_last() =~= cs@.take(i - 1));
        i = i - 1;
    }
    if i > 0 {
        assert(cs@.take(i as int).last() == '.');
    } else {
        assert(cs@.take(0) =~= Seq::<char>::empty());
    }
    if i <= 1 {
        return false;
    }
    let start = i;
    if cs.len() - start != es.len() {
        assert(cs@.skip(start as int).len() != es@.len());
        return false;
    }
    let mut j: usize = 0;
    while j < es.len()
        invariant
            start + es@.len() == cs@.len(),
            cs@.len() == cs.len(),
            cs@ == name@,
            es@ == ext@,
            start >= 2,
            last_index(cs@, '.') == start - 1,
            j <= es@.len(),
            forall|k: int| 0 <= k < j ==> cs@[start + k] == es@[k],
        decreases es.len() - j,
    {
        assert(start + j < cs@.len());
        if cs[start + j] != es[j] {
            assert(cs@.skip(start as int)[j as int] != es@[j as int]);
            return false;
        }
        j = j + 1;
    }
    assert(cs@.skip(start as int) =~= es@);
    true
}

/// The paths (`dir_prefix` + name) of the first `max_files` entries of `names` that are
/// not directories and have extension `extension`, in listing order.
pub fn find_source_files(dir_prefix: &str, names: &Vec<ListedEntry>, extension: &str, max_files: usize) -> (r: Vec<String>)
    ensures
        names_view(r@) == sources(dir_prefix@, listing_view(names@), extension@, max_files as int),
{
    let mut out: Vec<String> = Vec::new();
    let mut i: usize = 0;
    while i < names.len()
        invariant
            i <= names.len(),
            names_view(out@) == sources(dir_prefix@, listing_view(names@.take(i as int)), extension@, max_files as int),
            out@.len() == min_of(max_files as int, matching(listing_view(names@.take(i as int)), extension@).len() as int),
        decreases names.len() - i,
    {
        let ghost prev = listing_view(names@.take(i as int));
        let ghost next = listing_view(names@.take(i + 1));
        assert(next.drop_last() =~= prev);
        assert(next.last() == names@[i as int]@);
        let ghost entry_name = names@[i as int].name@;
        let ghost mp = matching(prev, extension@);
        let ghost mn = matching(next, extension@);
        if !names[i].is_dir && extension_matches(names[i].name.as_str(), extension) {
            assert(mn == mp.push(entry_name));
            if out.len() < max_files {
                assert(mp.take(mp.len() as int) =~= mp);
                assert(mn.take(mn.len() as int) =~= mn);
                let ghost before_push = names_view(out@);
                let ghost item = dir_prefix@ + entry_name;
                assert(sources(dir_prefix@, prev, extension@, max_files as int) =~= mp.map_values(|n: Seq<char>| dir_prefix@ + n));
                assert(sources(dir_prefix@, next, extension@, max_files as int) =~= mn.map_values(|n: Seq<char>| dir_prefix@ + n));
                assert(mn.map_values(|n: Seq<char>| dir_prefix@ + n) =~= mp.map_values(|n: Seq<char>| dir_prefix@ + n).push(item));
                let mut path = String::from_str(dir_prefix);
                path.append(names[i].name.as_str());
                out.push(path);
                assert(names_view(out@) =~= before_push.push(item));
            } else {
                assert(mn.take(max_files as int) =~= mp.take(max_files as int));
            }
        } else {
            assert(mn == mp);
        }
        i = i + 1;
    }
    assert(names@.take(i as int) =~= names@);
    out
}

/// Whether `names` lists an entry called `name`.
fn lists(names: &Vec<ListedEntry>, name: &str) -> (r: bool)
    ensures
        r == entry_names(listing_view(names@)).contains(name@),
{
    let target = String::from_str(name);
    let mut i: usize = 0;
    while i < names.len()
        invariant
            i <= names.len(),
            target@ == name@,
            forall|k: int| 0 <= k < i ==> names@[k].name@ != name@,
        decreases names.len() - i,
    {
        if names[i].name == target {
            assert(entry_names(listing_view(names@))[i as int] == name@);
            return true;
        }
        i = i + 1;
    }
    assert forall|k: int| 0 <= k < entry_names(listing_view(names@)).len() implies entry_names(listing_view(names@))[k] != name@ by {
        assert(entry_names(listing_view(names@))[k] == names@[k].name@);
    }
    false
}

/// Adds one ecosystem's marker and source sample to `out`, where its marker is listed.
fn add_ecosystem(out: &mut Vec<String>, present: bool, marker: &str, files: Vec<String>)
    ensures
        names_view(final(out)@) == names_view(old(out)@) + ecosystem(present, marker@, names_view(files@)),
{
    if present {
        let mut rest = files;
        out.push(String::from_str(marker));
        out.append(&mut rest);
        assert(names_view(final(out)@) =~= names_view(old(out)@) + ecosystem(present, marker@, names_view(files@)));
    } else {
        assert(names_view(old(out)@) + ecosystem(present, marker@, names_view(files@)) =~= names_view(old(out)@));
    }
}

/// The marker files of the detected ecosystems, each followed by a sample of at most
/// `max_files` source files per extension, in marker-check order.
pub fn find_project_files(listing: &ProjectListing, max_files: usize) -> (r: Vec<String>)
    ensures
        names_view(r@) == project_files(
            listing_view(listing.root_entries@),
            listing_view(listing.src_entries@),
            max_files as int,
        ),
{
    let root = &listing.root_entries;
    let src = &listing.src_entries;
    let mut out: Vec<String> = Vec::new();

    let rust = find_source_files("src/", src, "rs", max_files);
    add_ecosystem(&mut out, lists(root, "Cargo.toml"), "Cargo.toml", rust);

    let python = find_source_files("src/", src, "py", max_files);
    add_ecosystem(&mut out, lists(root, "pyproject.toml"), "pyproject.toml", python);

    let mut node = find_source_files("src/", src, "js", max_files);
    let ghost js = names_view(node@);
    let mut typescript = find_source_files("src/", src, "ts", max_files);
    let ghost ts = names_view(typescript@);
    node.append(&mut typescript);
    assert(names_view(node@) =~= js + ts);
    add_ecosystem(&mut out, lists(root, "package.json"), "package.json", node);

    let go = find_source_files("", root, "go", max_files);
    add_ecosystem(&mut out, lists(root, "go.mod"), "go.mod", go);

    assert(names_view(out@) =~= project_files(listing_view(root@), listing_view(src@), max_files as int));
    out
}

} // verus!
