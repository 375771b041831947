//! Finding the system rows that answer an invoice key.

use vstd::prelude::*;
use crate::paths::{path_components, same_path};
use crate::text::same_text;
use crate::types::{ItemKey, Price, SpreadsheetRowNumber};

verus! {

/// A priced row of the invoice.
#[derive(Debug, Clone, PartialEq)]
pub struct InvoiceRow {
    pub row_number: SpreadsheetRowNumber,
    pub key: ItemKey,
    pub price: Price,
}

/// A priced row of a system file.
#[derive(Debug, Clone, PartialEq)]
pub struct SystemRow {
    pub row_number: SpreadsheetRowNumber,
    pub key: ItemKey,
    pub price: Price,
    pub source_file: String,
    pub source_sheet: String,
}

/// The texts of a list of strings.
pub open spec fn texts(s: Seq<String>) -> Seq<Seq<char>> {
    s.map_values(|t: String| t@)
}

/// The files that the rows come from, row by row.
pub open spec fn source_files(rows: Seq<SystemRow>) -> Seq<Seq<char>> {
    rows.map_values(|r: SystemRow| r.source_file@)
}

/// The row numbers of the rows, in order.
pub open spec fn row_numbers(rows: Seq<SystemRow>) -> Seq<nat> {
    rows.map_values(|r: SystemRow| r.row_number@)
}

/// The components of each path, in order.
pub open spec fn path_keys(s: Seq<Seq<char>>) -> Seq<Seq<Seq<char>>> {
    s.map_values(|p: Seq<char>| path_components(p))
}

/// The rows that come from the path with the components `path`, in order.
pub open spec fn rows_of_path(rows: Seq<SystemRow>, path: Seq<Seq<char>>) -> Seq<SystemRow>
    decreases rows.len(),
{
    if rows.len() == 0 {
        rows
    } else if path_components(rows.last().source_file@) == path {
        rows_of_path(rows.drop_last(), path).push(rows.last())
    } else {
        rows_of_path(rows.drop_last(), path)
    }
}

/// The rows that come from `file`, in order: from the same path, however
/// it is written.
pub open spec fn rows_in_file(rows: Seq<SystemRow>, file: Seq<char>) -> Seq<SystemRow> {
    rows_of_path(rows, path_components(file))
}

/// The rows whose key is `key`, in order.
pub open spec fn rows_with_key(rows: Seq<SystemRow>, key: Seq<char>) -> Seq<SystemRow>
    decreases rows.len(),
{
    if rows.len() == 0 {
        rows
    } else if rows.last().key@ == key {
        rows_with_key(rows.drop_last(), key).push(rows.last())
    } else {
        rows_with_key(rows.drop_last(), key)
    }
}

/// `s` with every element kept only where it first occurs.
pub open spec fn first_occurrences<T>(s: Seq<T>) -> Seq<T>
    decreases s.len(),
{
    if s.len() == 0 {
        s
    } else if first_occurrences(s.drop_last()).contains(s.last()) {
        first_occurrences(s.drop_last())
    } else {
        first_occurrences(s.drop_last()).push(s.last())
    }
}

/// `s` with every path kept only where it first occurs, paths being the same
/// when their components agree.
pub open spec fn first_paths(s: Seq<Seq<char>>) -> Seq<Seq<char>>
    decreases s.len(),
{
    if s.len() == 0 {
        s
    } else if path_keys(first_paths(s.drop_last())).contains(path_components(s.last())) {
        first_paths(s.drop_last())
    } else {
        first_paths(s.drop_last()).push(s.last())
    }
}

/// The matches of `key` in the first of `files`, in that order, whose rows
/// hold it; none when no file does.
pub open spec fn first_file_matches(
    rows: Seq<SystemRow>,
    files: Seq<Seq<char>>,
    key: Seq<char>,
) -> Seq<SystemRow>
    decreases files.len(),
{
    if files.len() == 0 {
        Seq::empty()
    } else if rows_with_key(rows_in_file(rows, files[0]), key).len() > 0 {
        rows_with_key(rows_in_file(rows, files[0]), key)
    } else {
        first_file_matches(rows, files.drop_first(), key)
    }
}

/// The paths kept are the first of each path, in order: their components are
/// those of the whole list with repeats dropped.
pub proof fn lemma_first_paths(s: Seq<Seq<char>>)
    ensures
        path_keys(first_paths(s)) == first_occurrences(path_keys(s)),
    decreases s.len(),
{
    if s.len() > 0 {
        let d = s.drop_last();
        lemma_first_paths(d);
        assert(path_keys(s).drop_last() =~= path_keys(d));
        assert(path_keys(s).last() == path_components(s.last()));
        let f = first_paths(d);
        assert(path_keys(f.push(s.last())) =~= path_keys(f).push(path_components(s.last())));
    }
}

/// Each element occurs once in `first_occurrences(s)`, and it holds exactly
/// the elements of `s`.
pub proof fn lemma_first_occurrences<T>(s: Seq<T>)
    ensures
        forall|x: T| first_occurrences(s).contains(x) <==> s.contains(x),
        forall|i: int, j: int|
            0 <= i < j < first_occurrences(s).len() ==> first_occurrences(s)[i]
                != first_occurrences(s)[j],
    decreases s.len(),
{
    if s.len() > 0 {
        let d = s.drop_last();
        lemma_first_occurrences(d);
        let f = first_occurrences(d);
        assert forall|x: T| first_occurrences(s).contains(x) <==> s.contains(x) by {
            if s.contains(x) {
                let k = choose|k: int| 0 <= k < s.len() && s[k] == x;
                if k < d.len() {
                    assert(d[k] == x);
                    assert(d.contains(x));
                }
            }
            if d.contains(x) {
                let k = choose|k: int| 0 <= k < d.len() && d[k] == x;
                assert(s[k] == x);
            }
            assert(s[s.len() - 1] == s.last());
            if !f.contains(s.last()) {
                let g = f.push(s.last());
                assert(g[f.len() as int] == s.last());
                if f.contains(x) {
                    let k = choose|k: int| 0 <= k < f.len() && f[k] == x;
                    assert(g[k] == x);
                }
                if g.contains(x) {
                    let k = choose|k: int| 0 <= k < g.len() && g[k] == x;
                    if k < f.len() {
                        assert(f[k] == x);
                    }
                }
            }
        }
    }
}

proof fn lemma_rows_of_path_absent(rows: Seq<SystemRow>, path: Seq<Seq<char>>)
    requires
        !path_keys(source_files(rows)).contains(path),
    ensures
        rows_of_path(rows, path).len() == 0,
    decreases rows.len(),
{
    if rows.len() > 0 {
        let d = rows.drop_last();
        assert(path_keys(source_files(rows))[rows.len() - 1] == path_components(
            rows.last().source_file@,
        ));
        assert forall|k: int| 0 <= k < d.len() implies path_keys(source_files(d))[k] != path by {
            assert(path_keys(source_files(d))[k] == path_keys(source_files(rows))[k]);
        }
        lemma_rows_of_path_absent(d, path);
    }
}

/// The rows of one file, in order.
#[derive(Debug)]
pub struct FileRows<'a> {
    pub file: String,
    pub rows: Vec<&'a SystemRow>,
}

/// The rows that references point to.
pub open spec fn deref_rows<'a>(s: Seq<&'a SystemRow>) -> Seq<SystemRow> {
    s.map_values(|r: &'a SystemRow| *r)
}

/// The rows of the group of the path with the components `path`; none when
/// there is no such group.
pub open spec fn group_of_path<'a>(groups: Seq<FileRows<'a>>, path: Seq<Seq<char>>) -> Seq<
    SystemRow,
>
    decreases groups.len(),
{
    if groups.len() == 0 {
        Seq::empty()
    } else if path_components(groups[0].file@) == path {
        deref_rows(groups[0].rows@)
    } else {
        group_of_path(groups.drop_first(), path)
    }
}

/// The rows of the group of `file`, the same path however it is written;
/// none when there is no such group.
pub open spec fn group_of<'a>(groups: Seq<FileRows<'a>>, file: Seq<char>) -> Seq<SystemRow> {
    group_of_path(groups, path_components(file))
}

/// The files of the groups, in order.
pub open spec fn group_files<'a>(groups: Seq<FileRows<'a>>) -> Seq<Seq<char>> {
    groups.map_values(|g: FileRows<'a>| g.file@)
}

proof fn lemma_group_of_index<'a>(groups: Seq<FileRows<'a>>, k: int)
    requires
        0 <= k < groups.len(),
        forall|i: int, j: int|
            0 <= i < j < groups.len() ==> path_components(groups[i].file@) != path_components(
                groups[j].file@,
            ),
    ensures
        group_of_path(groups, path_components(groups[k].file@)) == deref_rows(groups[k].rows@),
    decreases k,
{
    if k > 0 {
        let d = groups.drop_first();
        assert(d[k - 1] == groups[k]);
        assert(path_components(groups[0].file@) != path_components(groups[k].file@));
        lemma_group_of_index(d, k - 1);
    }
}

proof fn lemma_group_of_absent<'a>(groups: Seq<FileRows<'a>>, path: Seq<Seq<char>>)
    requires
        forall|i: int| 0 <= i < groups.len() ==> path_components(groups[i].file@) != path,
    ensures
        group_of_path(groups, path).len() == 0,
    decreases groups.len(),
{
    if groups.len() > 0 {
        let d = groups.drop_first();
        assert forall|i: int| 0 <= i < d.len() implies path_components(d[i].file@) != path by {
            assert(d[i] == groups[i + 1]);
        }
        lemma_group_of_absent(d, path);
    }
}

/// Whether `t` is among the texts of `v`.
pub fn contains_text(v: &Vec<String>, t: &str) -> (r: bool)
    ensures
        r == texts(v@).contains(t@),
{
    let mut i: usize = 0;
    while i < v.len()
        invariant
            i <= v.len(),
            forall|k: int| 0 <= k < i ==> v@[k]@ != t@,
        decreases v.len() - i,
    {
        if same_text(v[i].as_str(), t) {
            assert(texts(v@)[i as int] == t@);
            return true;
        }
        i = i + 1;
    }
    proof {
        if texts(v@).contains(t@) {
            let k = choose|k: int| 0 <= k < texts(v@).len() && texts(v@)[k] == t@;
            assert(v@[k]@ == t@);
        }
    }
    false
}

/// Whether the path `t` is among the paths of `v`, paths being the same when
/// their components agree.
pub fn contains_path(v: &Vec<String>, t: &str) -> (r: bool)
    ensures
        r == path_keys(texts(v@)).contains(path_components(t@)),
{
    let mut i: usize = 0;
    while i < v.len()
        invariant
            i <= v.len(),
            forall|k: int| 0 <= k < i ==> path_components(v@[k]@) != path_components(t@),
        decreases v.len() - i,
    {
        if same_path(v[i].as_str(), t) {
            assert(path_keys(texts(v@))[i as int] == path_components(t@));
            return true;
        }
        i = i + 1;
    }
    proof {
        if path_keys(texts(v@)).contains(path_components(t@)) {
            let k = choose|k: int|
                0 <= k < path_keys(texts(v@)).len() && path_keys(texts(v@))[k] == path_components(
                    t@,
                );
            assert(path_components(v@[k]@) == path_components(t@));
        }
    }
    false
}

/// The rows grouped by the file they come from, files in the order in which
/// they first occur; two files are the same when their paths have the same
/// components.
pub fn group_rows_by_file<'a>(system_rows: &'a [SystemRow]) -> (r: Vec<FileRows<'a>>)
    ensures
        group_files(r@) == first_paths(source_files(system_rows@)),
        forall|f: Seq<char>| #[trigger] group_of(r@, f) == rows_in_file(system_rows@, f),
{
    let ghost all = source_files(system_rows@);
    let n = system_rows.len();
    let mut files: Vec<String> = Vec::new();
    let mut i: usize = 0;
    while i < n
        invariant
            i <= n,
            n == system_rows@.len(),
            all == source_files(system_rows@),
            texts(files@) == first_paths(all.take(i as int)),
        decreases n - i,
    {
        proof {
            assert(all.take(i + 1).drop_last() =~= all.take(i as int));
            assert(all.take(i + 1).last() == system_rows@[i as int].source_file@);
        }
        if !contains_path(&files, system_rows[i].source_file.as_str()) {
            files.push(system_rows[i].source_file.clone());
            proof {
                assert(texts(files@) =~= first_paths(all.take(i as int)).push(
                    system_rows@[i as int].source_file@,
                ));
            }
        }
        i = i + 1;
    }
    proof {
        assert(all.take(n as int) =~= all);
        lemma_first_paths(all);
        lemma_first_occurrences(path_keys(all));
    }
    let mut groups: Vec<FileRows<'a>> = Vec::new();
    let mut j: usize = 0;
    while j < files.len()
        invariant
            j <= files.len(),
            n == system_rows@.len(),
            groups@.len() == j,
            forall|k: int| 0 <= k < j ==> (#[trigger] groups@[k]).file@ == files@[k]@,
            forall|k: int|
                0 <= k < j ==> deref_rows((#[trigger] groups@[k]).rows@) == rows_in_file(
                    system_rows@,
                    files@[k]@,
                ),
        decreases files.len() - j,
    {
        let mut members: Vec<&'a SystemRow> = Vec::new();
        let mut t: usize = 0;
        while t < n
            invariant
                t <= n,
                n == system_rows@.len(),
                j < files.len(),
                deref_rows(members@) == rows_in_file(system_rows@.take(t as int), files@[j as int]@),
            decreases n - t,
        {
            proof {
                assert(system_rows@.take(t + 1).drop_last() =~= system_rows@.take(t as int));
            }
            if same_path(system_rows[t].source_file.as_str(), files[j].as_str()) {
                members.push(&system_rows[t]);
                proof {
                    assert(deref_rows(members@) =~= rows_in_file(
                        system_rows@.take(t as int),
                        files@[j as int]@,
                    ).push(system_rows@[t as int]));
                }
            }
            t = t + 1;
        }
        proof {
            assert(system_rows@.take(n as int) =~= system_rows@);
        }
        groups.push(FileRows { file: files[j].clone(), rows: members });
        j = j + 1;
    }
    proof {
        let keys = path_keys(texts(files@));
        assert(group_files(groups@) =~= texts(files@));
        assert forall|f: Seq<char>| #[trigger] group_of(groups@, f) == rows_in_file(
            system_rows@,
            f,
        ) by {
            assert forall|a: int, b: int|
                0 <= a < b < groups@.len() implies path_components(groups@[a].file@)
                != path_components(groups@[b].file@) by {
                assert(keys[a] == path_components(groups@[a].file@));
                assert(keys[b] == path_components(groups@[b].file@));
            }
            let key = path_components(f);
            if keys.contains(key) {
                let k = choose|k: int| 0 <= k < keys.len() && keys[k] == key;
                assert(keys[k] == path_components(groups@[k].file@));
                lemma_group_of_index(groups@, k);
            } else {
                assert forall|i: int| 0 <= i < groups@.len() implies path_components(
                    groups@[i].file@,
                ) != key by {
                    assert(keys[i] == path_components(groups@[i].file@));
                }
                lemma_group_of_absent(groups@, key);
                assert(!path_keys(all).contains(key));
                lemma_rows_of_path_absent(system_rows@, key);
            }
        }
    }
    groups
}

proof fn lemma_group_of_first<'a>(groups: Seq<FileRows<'a>>, k: int, path: Seq<Seq<char>>)
    requires
        0 <= k < groups.len(),
        path_components(groups[k].file@) == path,
        forall|i: int| 0 <= i < k ==> path_components(groups[i].file@) != path,
    ensures
        group_of_path(groups, path) == deref_rows(groups[k].rows@),
    decreases k,
{
    if k > 0 {
        let d = groups.drop_first();
        assert(d[k - 1] == groups[k]);
        assert forall|i: int| 0 <= i < k - 1 implies path_components(d[i].file@) != path by {
            assert(d[i] == groups[i + 1]);
        }
        lemma_group_of_first(d, k - 1, path);
    }
}

/// Where the group of `file` stands, if there is one.
fn find_group<'a>(groups: &Vec<FileRows<'a>>, file: &str) -> (r: Option<usize>)
    ensures
        r matches Some(k) ==> k < groups@.len() && group_of(groups@, file@) == deref_rows(
            groups@[k as int].rows@,
        ),
        r is None ==> group_of(groups@, file@).len() == 0,
{
    let mut i: usize = 0;
    while i < groups.len()
        invariant
            i <= groups.len(),
            forall|k: int| 0 <= k < i ==> path_components(groups@[k].file@) != path_components(
                file@,
            ),
        decreases groups.len() - i,
    {
        if same_path(groups[i].file.as_str(), file) {
            proof {
                lemma_group_of_first(groups@, i as int, path_components(file@));
            }
            return Some(i);
        }
        i = i + 1;
    }
    proof {
        lemma_group_of_absent(groups@, path_components(file@));
    }
    None
}

/// The matches of `key` in the first of `files`, in that order, whose group
/// holds it; none when no group does.
pub open spec fn resolution_rows<'a>(
    groups: Seq<FileRows<'a>>,
    files: Seq<Seq<char>>,
    key: Seq<char>,
) -> Seq<SystemRow>
    decreases files.len(),
{
    if files.len() == 0 {
        Seq::empty()
    } else if rows_with_key(group_of(groups, files[0]), key).len() > 0 {
        rows_with_key(group_of(groups, files[0]), key)
    } else {
        resolution_rows(groups, files.drop_first(), key)
    }
}

/// How an invoice key was found among the system rows.
#[derive(Debug, PartialEq)]
pub enum MatchResolution<'a> {
    Found(&'a SystemRow),
    NotFound,
    Multiple(Vec<&'a SystemRow>),
}

/// The resolution `r` stands for the matching rows `m`: none, exactly one,
/// or several of them.
pub open spec fn resolution_denotes<'a>(r: MatchResolution<'a>, m: Seq<SystemRow>) -> bool {
    match r {
        MatchResolution::NotFound => m.len() == 0,
        MatchResolution::Found(x) => m.len() == 1 && m[0] == *x,
        MatchResolution::Multiple(v) => m.len() >= 2 && deref_rows(v@) == m,
    }
}

/// Looks `key` up in the files in priority order: the first file whose rows
/// hold the key decides, with one match or several.
pub fn resolve_system_match<'a>(
    key: &ItemKey,
    system_rows_by_file: &Vec<FileRows<'a>>,
    system_priority_files: &[String],
) -> (r: MatchResolution<'a>)
    ensures
        resolution_denotes(
            r,
            resolution_rows(system_rows_by_file@, texts(system_priority_files@), key@),
        ),
{
    let ghost groups = system_rows_by_file@;
    let ghost files = texts(system_priority_files@);
    let mut j: usize = 0;
    proof {
        assert(files.skip(0) =~= files);
    }
    while j < system_priority_files.len()
        invariant
            j <= system_priority_files.len(),
            groups == system_rows_by_file@,
            files == texts(system_priority_files@),
            resolution_rows(groups, files, key@) == resolution_rows(
                groups,
                files.skip(j as int),
                key@,
            ),
        decreases system_priority_files.len() - j,
    {
        let ghost rest = files.skip(j as int);
        proof {
            assert(rest[0] == system_priority_files@[j as int]@);
            assert(rest.drop_first() =~= files.skip(j + 1));
        }
        let found = find_group(system_rows_by_file, system_priority_files[j].as_str());
        match found {
            None => {
                proof {
                    assert(rows_with_key(group_of(groups, rest[0]), key@).len() == 0);
                }
            },
            Some(k) => {
                let ghost members = deref_rows(system_rows_by_file@[k as int].rows@);
                let mut matches: Vec<&'a SystemRow> = Vec::new();
                let mut t: usize = 0;
                while t < system_rows_by_file[k].rows.len()
                    invariant
                        k < system_rows_by_file@.len(),
                        t <= system_rows_by_file@[k as int].rows@.len(),
                        members == deref_rows(system_rows_by_file@[k as int].rows@),
                        deref_rows(matches@) == rows_with_key(members.take(t as int), key@),
                    decreases system_rows_by_file@[k as int].rows@.len() - t,
                {
                    let row = system_rows_by_file[k].rows[t];
                    proof {
                        assert(members.take(t + 1).drop_last() =~= members.take(t as int));
                        assert(members.take(t + 1).last() == *row);
                    }
                    if row.key.same_as(key) {
                        matches.push(row);
                        proof {
                            assert(deref_rows(matches@) =~= rows_with_key(
                                members.take(t as int),
                                key@,
                            ).push(*row));
                        }
                    }
                    t = t + 1;
                }
                proof {
                    assert(members.take(members.len() as int) =~= members);
                }
                if matches.len() == 1 {
                    return MatchResolution::Found(matches[0]);
                }
                if matches.len() > 1 {
                    return MatchResolution::Multiple(matches);
                }
            },
        }
        j = j + 1;
    }
    MatchResolution::NotFound
}

/// Files after the first one that holds a key do not change its matches:
/// the files are tried in the order given.
pub proof fn lemma_later_files_do_not_matter(
    rows: Seq<SystemRow>,
    files: Seq<Seq<char>>,
    more: Seq<Seq<char>>,
    key: Seq<char>,
)
    requires
        first_file_matches(rows, files, key).len() > 0,
    ensures
        first_file_matches(rows, files + more, key) == first_file_matches(rows, files, key),
    decreases files.len(),
{
    assert((files + more)[0] == files[0]);
    if rows_with_key(rows_in_file(rows, files[0]), key).len() == 0 {
        assert((files + more).drop_first() =~= files.drop_first() + more);
        lemma_later_files_do_not_matter(rows, files.drop_first(), more, key);
    }
}

/// The rows that hold a key are the rows whose key is that key, character
/// for character, in their order: a row whose key merely starts with it, or
/// differs from it in any way, is left out, and no row with that key is.
pub proof fn lemma_rows_with_key_exact(rows: Seq<SystemRow>, key: Seq<char>)
    ensures
        rows_with_key(rows, key) == rows.filter(|r: SystemRow| r.key@ == key),
        forall|i: int|
            0 <= i < rows_with_key(rows, key).len() ==> (#[trigger] rows_with_key(rows, key)[i]).key@
                == key,
        forall|j: int|
            0 <= j < rows.len() && (#[trigger] rows[j]).key@ == key ==> rows_with_key(
                rows,
                key,
            ).contains(rows[j]),
    decreases rows.len(),
{
    let pred = |r: SystemRow| r.key@ == key;
    if rows.len() > 0 {
        lemma_rows_with_key_exact(rows.drop_last(), key);
        let sub = rows.drop_last().filter(pred);
        assert(rows_with_key(rows.drop_last(), key) == sub);
        reveal(Seq::filter);
        assert(rows.filter(pred) == (if pred(rows.last()) {
            sub.push(rows.last())
        } else {
            sub
        }));
    } else {
        reveal(Seq::filter);
    }
    assert(rows_with_key(rows, key) == rows.filter(pred));
    assert forall|i: int| 0 <= i < rows_with_key(rows, key).len() implies (#[trigger] rows_with_key(
        rows,
        key,
    )[i]).key@ == key by {
        rows.lemma_filter_pred(pred, i);
    }
    assert forall|j: int| 0 <= j < rows.len() && (#[trigger] rows[j]).key@ == key implies rows_with_key(
        rows,
        key,
    ).contains(rows[j]) by {
        rows.lemma_filter_contains(pred, j);
    }
}

/// Every row that the lookup of a key returns, from whichever file decides,
/// has exactly that key.
pub proof fn lemma_resolution_rows_have_key<'a>(
    groups: Seq<FileRows<'a>>,
    files: Seq<Seq<char>>,
    key: Seq<char>,
)
    ensures
        forall|i: int|
            0 <= i < resolution_rows(groups, files, key).len() ==> (#[trigger] resolution_rows(
                groups,
                files,
                key,
            )[i]).key@ == key,
    decreases files.len(),
{
    if files.len() > 0 {
        lemma_resolution_rows_have_key(groups, files.drop_first(), key);
        lemma_rows_with_key_exact(group_of(groups, files[0]), key);
        let r = resolution_rows(groups, files, key);
        let own = rows_with_key(group_of(groups, files[0]), key);
        let rest = resolution_rows(groups, files.drop_first(), key);
        assert forall|i: int| 0 <= i < r.len() implies (#[trigger] r[i]).key@ == key by {
            if own.len() > 0 {
                assert(r[i] == own[i]);
            } else {
                assert(r[i] == rest[i]);
            }
        }
    }
}

/// Every row that decides an invoice key has exactly that key, and the
/// deciding file's rows with that key all take part.
pub proof fn lemma_first_file_matches_have_key(
    rows: Seq<SystemRow>,
    files: Seq<Seq<char>>,
    key: Seq<char>,
)
    ensures
        forall|i: int|
            0 <= i < first_file_matches(rows, files, key).len() ==> (
            #[trigger] first_file_matches(rows, files, key)[i]).key@ == key,
        first_file_matches(rows, files, key).len() > 0 ==> exists|k: int|
            0 <= k < files.len() && first_file_matches(rows, files, key) == rows_in_file(
                rows,
                #[trigger] files[k],
            ).filter(|r: SystemRow| r.key@ == key),
    decreases files.len(),
{
    if files.len() > 0 {
        lemma_first_file_matches_have_key(rows, files.drop_first(), key);
        lemma_rows_with_key_exact(rows_in_file(rows, files[0]), key);
        if rows_with_key(rows_in_file(rows, files[0]), key).len() == 0 {
            if first_file_matches(rows, files, key).len() > 0 {
                let k = choose|k: int|
                    0 <= k < files.drop_first().len() && first_file_matches(
                        rows,
                        files.drop_first(),
                        key,
                    ) == rows_in_file(rows, #[trigger] files.drop_first()[k]).filter(
                        |r: SystemRow| r.key@ == key,
                    );
                assert(files[k + 1] == files.drop_first()[k]);
            }
        } else {
            assert(files[0] == files[0]);
        }
    }
}

} // verus!
