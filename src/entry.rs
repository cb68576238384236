//! Parsing the entries of an optional-dependency block and selecting those
//! that are reported.

use vstd::prelude::*;
use crate::text::{chars_of, contains, contains_seq, trim, trim_bounds};

verus! {

/// Marks an entry whose dependency is already installed.
pub const INSTALLED_MARKER: &'static str = "[installed]";

pub open spec fn marker() -> Seq<char> {
    INSTALLED_MARKER@
}

/// One entry of an optional-dependency block: its text, typically
/// "name: reason", and whether the dependency is already installed.
#[derive(Debug)]
pub struct DependencyEntry {
    pub text: String,
    pub is_installed: bool,
}

impl View for DependencyEntry {
    type V = (Seq<char>, bool);

    open spec fn view(&self) -> (Seq<char>, bool) {
        (self.text@, self.is_installed)
    }
}

/// The entry that a trimmed, non-empty line makes.
pub open spec fn entry_model(line: Seq<char>) -> (Seq<char>, bool) {
    (line, contains_seq(line, marker()))
}

/// The views of a sequence of entries.
pub open spec fn views(es: Seq<DependencyEntry>) -> Seq<(Seq<char>, bool)> {
    es.map_values(|e: DependencyEntry| e@)
}

/// The views of a sequence of strings.
pub open spec fn strs(ss: Seq<String>) -> Seq<Seq<char>> {
    ss.map_values(|s: String| s@)
}

/// The lines of `s`: the pieces between its line breaks, in order.
pub open spec fn split_lines(s: Seq<char>) -> Seq<Seq<char>>
    decreases s.len(),
{
    if s.len() == 0 {
        seq![Seq::<char>::empty()]
    } else {
        let p = split_lines(s.drop_last());
        if s.last() == '\n' {
            p.push(Seq::<char>::empty())
        } else {
            p.update(p.len() - 1, p.last().push(s.last()))
        }
    }
}

/// The lines of `ls`, trimmed, without those that are empty once trimmed.
pub open spec fn kept_lines(ls: Seq<Seq<char>>) -> Seq<Seq<char>>
    decreases ls.len(),
{
    if ls.len() == 0 {
        Seq::<Seq<char>>::empty()
    } else {
        let r = kept_lines(ls.drop_last());
        if trim(ls.last()).len() > 0 {
            r.push(trim(ls.last()))
        } else {
            r
        }
    }
}

/// The texts of the entries of a block's body, in block order.
pub open spec fn entry_texts(body: Seq<char>) -> Seq<Seq<char>> {
    kept_lines(split_lines(body))
}

/// The entries of a block's body, in block order.
pub open spec fn entries_of(body: Seq<char>) -> Seq<(Seq<char>, bool)> {
    entry_texts(body).map_values(|t: Seq<char>| entry_model(t))
}

/// The policy: an entry is kept unless it is installed and installed entries
/// are not asked for.
pub open spec fn keeps(include_installed: bool) -> spec_fn((Seq<char>, bool)) -> bool {
    |e: (Seq<char>, bool)| !e.1 || include_installed
}

/// The entries that the policy keeps, in their order.
pub open spec fn reportable(es: Seq<(Seq<char>, bool)>, include_installed: bool) -> Seq<
    (Seq<char>, bool),
> {
    es.filter(keeps(include_installed))
}

/// The texts of the entries of a block's body that are reported.
pub open spec fn report_texts(body: Seq<char>, include_installed: bool) -> Seq<Seq<char>> {
    reportable(entries_of(body), include_installed).map_values(|e: (Seq<char>, bool)| e.0)
}

/// Appending the entry of the last line of `p` extends the entries of the
/// lines before it to the entries of all of `p`.
proof fn lemma_push_entry(before: Seq<DependencyEntry>, e: DependencyEntry, p: Seq<Seq<char>>)
    requires
        p.len() >= 1,
        views(before) == kept_lines(p.drop_last()).map_values(|l: Seq<char>| entry_model(l)),
        trim(p.last()).len() > 0,
        e@ == entry_model(trim(p.last())),
    ensures
        views(before.push(e)) == kept_lines(p).map_values(|l: Seq<char>| entry_model(l)),
{
    let k = kept_lines(p.drop_last());
    assert(kept_lines(p) == k.push(trim(p.last())));
    assert(views(before.push(e)) =~= views(before).push(e@));
    assert(k.push(trim(p.last())).map_values(|l: Seq<char>| entry_model(l)) =~= k.map_values(
        |l: Seq<char>| entry_model(l),
    ).push(entry_model(trim(p.last()))));
}

/// The entry made by the line `src[a..b]`, if it is not blank.
fn entry_at(src: &str, t: &Vec<char>, a: usize, b: usize) -> (r: Option<DependencyEntry>)
    requires
        t@ == src@,
        a <= b <= t.len(),
    ensures
        r is None <==> trim(t@.subrange(a as int, b as int)).len() == 0,
        r matches Some(e) ==> e@ == entry_model(trim(t@.subrange(a as int, b as int))),
{
    let (x, y) = trim_bounds(t, a, b);
    if x == y {
        return None;
    }
    let text = String::from_str(src.substring_char(x, y));
    let chars = chars_of(text.as_str());
    let mark = chars_of(INSTALLED_MARKER);
    let is_installed = contains(&chars, &mark);
    Some(DependencyEntry { text, is_installed })
}

/// The entry that one line of a block makes, or `None` for a blank line.
pub fn parse_entry(line: &str) -> (r: Option<DependencyEntry>)
    ensures
        r is None <==> trim(line@).len() == 0,
        r matches Some(e) ==> e@ == entry_model(trim(line@)),
{
    let t = chars_of(line);
    assert(t@.subrange(0, t@.len() as int) =~= line@);
    entry_at(line, &t, 0, t.len())
}

/// The entries of the lines `src[lo..hi]`.
pub(crate) fn entries_in(src: &str, t: &Vec<char>, lo: usize, hi: usize) -> (r: Vec<DependencyEntry>)
    requires
        t@ == src@,
        lo <= hi <= t.len(),
    ensures
        views(r@) == entries_of(t@.subrange(lo as int, hi as int)),
{
    let mut r: Vec<DependencyEntry> = Vec::new();
    let mut start: usize = lo;
    let mut k: usize = lo;
    assert(split_lines(t@.subrange(lo as int, lo as int)) =~= seq![Seq::<char>::empty()]);
    assert(views(r@) =~= kept_lines(seq![]).map_values(|l: Seq<char>| entry_model(l)));
    while k < hi
        invariant
            t@ == src@,
            lo <= start <= k <= hi <= t.len(),
            split_lines(t@.subrange(lo as int, k as int)).len() >= 1,
            split_lines(t@.subrange(lo as int, k as int)).last() == t@.subrange(
                start as int,
                k as int,
            ),
            views(r@) == kept_lines(split_lines(t@.subrange(lo as int, k as int)).drop_last()).map_values(
                |l: Seq<char>| entry_model(l),
            ),
        decreases hi - k,
    {
        let ghost s0 = t@.subrange(lo as int, k as int);
        let ghost s1 = t@.subrange(lo as int, k + 1);
        let ghost p = split_lines(s0);
        assert(s1.drop_last() =~= s0);
        assert(s1.last() == t@[k as int]);
        if t[k] == '\n' {
            let e = entry_at(src, t, start, k);
            proof {
                assert(split_lines(s1) == p.push(Seq::<char>::empty()));
                assert(split_lines(s1).drop_last() =~= p);
                assert(p =~= p.drop_last().push(p.last()));
            }
            match e {
                Some(e) => {
                    let ghost before = r@;
                    r.push(e);
                    proof {
                        lemma_push_entry(before, e, p);
                    }
                },
                None => {},
            }
            start = k + 1;
            assert(split_lines(s1).last() =~= t@.subrange(start as int, k + 1));
        } else {
            proof {
                let q = p.update(p.len() - 1, p.last().push(t@[k as int]));
                assert(split_lines(s1) == q);
                assert(q.drop_last() =~= p.drop_last());
                assert(q.last() =~= t@.subrange(start as int, k + 1));
            }
        }
        k += 1;
    }
    let ghost p = split_lines(t@.subrange(lo as int, hi as int));
    assert(p =~= p.drop_last().push(p.last()));
    match entry_at(src, t, start, hi) {
        Some(e) => {
            let ghost before = r@;
            r.push(e);
            proof {
                lemma_push_entry(before, e, p);
            }
        },
        None => {},
    }
    r
}

/// The entries of a block's body: its lines, trimmed, without the blank ones,
/// in block order, each marked installed when it holds the installed marker.
pub fn parse_entries(body: &str) -> (r: Vec<DependencyEntry>)
    ensures
        views(r@) == entries_of(body@),
{
    let t = chars_of(body);
    assert(t@.subrange(0, t@.len() as int) =~= body@);
    entries_in(body, &t, 0, t.len())
}

/// The entries that are reported: every entry not yet installed, and the
/// installed ones only when `include_installed` holds; in their order.
pub fn filter_entries(entries: &Vec<DependencyEntry>, include_installed: bool) -> (r: Vec<
    DependencyEntry,
>)
    ensures
        views(r@) == reportable(views(entries@), include_installed),
{
    let mut r: Vec<DependencyEntry> = Vec::new();
    let mut i: usize = 0;
    assert(views(entries@.take(0)) =~= Seq::<(Seq<char>, bool)>::empty());
    while i < entries.len()
        invariant
            i <= entries.len(),
            views(r@) == reportable(views(entries@.take(i as int)), include_installed),
        decreases entries.len() - i,
    {
        let e = &entries[i];
        let ghost before = views(entries@.take(i as int));
        assert(views(entries@.take(i + 1)) =~= before.push(e@));
        proof {
            before.lemma_filter_push(e@, keeps(include_installed));
        }
        if !e.is_installed || include_installed {
            let ghost old_r = r@;
            r.push(DependencyEntry { text: e.text.clone(), is_installed: e.is_installed });
            assert(views(r@) =~= views(old_r).push(e@));
        }
        i += 1;
    }
    assert(entries@.take(i as int) =~= entries@);
    r
}

/// The texts of `entries`, in order.
pub fn texts_of(entries: &Vec<DependencyEntry>) -> (r: Vec<String>)
    ensures
        strs(r@) == views(entries@).map_values(|e: (Seq<char>, bool)| e.0),
{
    let mut r: Vec<String> = Vec::new();
    let mut i: usize = 0;
    while i < entries.len()
        invariant
            i <= entries.len(),
            strs(r@) == views(entries@.take(i as int)).map_values(|e: (Seq<char>, bool)| e.0),
        decreases entries.len() - i,
    {
        let ghost old_r = r@;
        r.push(entries[i].text.clone());
        assert(strs(r@) =~= strs(old_r).push(entries@[i as int].text@));
        assert(views(entries@.take(i + 1)).map_values(|e: (Seq<char>, bool)| e.0) =~= views(
            entries@.take(i as int),
        ).map_values(|e: (Seq<char>, bool)| e.0).push(entries@[i as int].text@));
        i += 1;
    }
    assert(entries@.take(i as int) =~= entries@);
    r
}

/// The reported lines of a block's body: its trimmed, non-blank lines in
/// block order, without the installed ones unless `installed` holds.
pub fn filter_optional_dependencies(opt_depends: String, installed: bool) -> (r: Vec<String>)
    ensures
        strs(r@) == report_texts(opt_depends@, installed),
{
    let entries = parse_entries(opt_depends.as_str());
    let kept = filter_entries(&entries, installed);
    texts_of(&kept)
}

} // verus!
