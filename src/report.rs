//! The per-package pipeline and its orchestration over a run.

use vstd::prelude::*;
use crate::block::{
    block_of, body_of, body_start, is_sentinel, label, locate, sentinel_at, MetadataError,
};
use crate::entry::{entries_in, filter_entries, report_texts, strs, texts_of};
use crate::text::chars_of;

verus! {

/// Flags of the package manager's query that lists installed packages.
pub const BASE_QUERY_FLAGS: &'static str = "-Qq";

/// Flag that restricts the listing to explicitly installed packages.
pub const EXPLICIT_FLAG: &'static str = "e";

/// What a run reports: `only_explicit` restricts the packages examined,
/// `include_installed` adds the entries that are already installed.
#[derive(Clone, Copy, Debug)]
pub struct FilterOptions {
    pub only_explicit: bool,
    pub include_installed: bool,
}

/// One package to examine: its name and its metadata text.
#[derive(Debug)]
pub struct PackageMetadata {
    pub name: String,
    pub details: String,
}

impl View for PackageMetadata {
    type V = (Seq<char>, Seq<char>);

    open spec fn view(&self) -> (Seq<char>, Seq<char>) {
        (self.name@, self.details@)
    }
}

/// The report of one package: its name and its reported entries, in order.
#[derive(Debug)]
pub struct PackageReport {
    pub name: String,
    pub dependencies: Vec<String>,
}

impl View for PackageReport {
    type V = (Seq<char>, Seq<Seq<char>>);

    open spec fn view(&self) -> (Seq<char>, Seq<Seq<char>>) {
        (self.name@, strs(self.dependencies@))
    }
}

/// The package whose metadata stopped a run, why, its position among the
/// packages, and the reports of the packages before it.
#[derive(Debug)]
pub struct MalformedMetadata {
    pub package: String,
    pub reason: MetadataError,
    pub index: usize,
    pub reports: Vec<PackageReport>,
}

/// The reported entries of a package with metadata `details`.
pub open spec fn package_report_of(details: Seq<char>, include_installed: bool) -> Result<
    Seq<Seq<char>>,
    MetadataError,
> {
    match block_of(details) {
        Err(e) => Err(e),
        Ok(block) => {
            let body = body_of(block);
            if is_sentinel(body) {
                Ok(Seq::<Seq<char>>::empty())
            } else {
                Ok(report_texts(body, include_installed))
            }
        },
    }
}

/// The reports of a run over `ps`, in order, one for each package with
/// reported entries; or the first package whose metadata is malformed.
pub open spec fn run_of(ps: Seq<(Seq<char>, Seq<char>)>, include_installed: bool) -> Result<
    Seq<(Seq<char>, Seq<Seq<char>>)>,
    (Seq<char>, MetadataError),
>
    decreases ps.len(),
{
    if ps.len() == 0 {
        Ok(Seq::<(Seq<char>, Seq<Seq<char>>)>::empty())
    } else {
        match run_of(ps.drop_last(), include_installed) {
            Err(e) => Err(e),
            Ok(rs) => match package_report_of(ps.last().1, include_installed) {
                Err(e) => Err((ps.last().0, e)),
                Ok(d) => Ok(
                    if d.len() > 0 {
                        rs.push((ps.last().0, d))
                    } else {
                        rs
                    },
                ),
            },
        }
    }
}

pub open spec fn package_views(ps: Seq<PackageMetadata>) -> Seq<(Seq<char>, Seq<char>)> {
    ps.map_values(|p: PackageMetadata| p@)
}

pub open spec fn report_views(rs: Seq<PackageReport>) -> Seq<(Seq<char>, Seq<Seq<char>>)> {
    rs.map_values(|p: PackageReport| p@)
}

/// The flags of the query that lists the packages to examine.
pub fn list_query_flags(only_explicit: bool) -> (r: String)
    ensures
        r@ == BASE_QUERY_FLAGS@ + (if only_explicit {
            EXPLICIT_FLAG@
        } else {
            Seq::<char>::empty()
        }),
{
    let mut flags = String::from_str(BASE_QUERY_FLAGS);
    if only_explicit {
        flags.append(EXPLICIT_FLAG);
    } else {
        assert(flags@ =~= flags@ + Seq::<char>::empty());
    }
    flags
}

/// The reported entries of a package with metadata `details`: the entries of
/// its optional-dependency block that the policy keeps, none when the block
/// holds the sentinel; or why the block could not be found.
pub fn package_report(details: &str, include_installed: bool) -> (r: Result<
    Vec<String>,
    MetadataError,
>)
    ensures
        r is Ok <==> package_report_of(details@, include_installed) is Ok,
        r is Ok ==> strs(r->Ok_0@) == package_report_of(details@, include_installed)->Ok_0,
        r is Err ==> r->Err_0 == package_report_of(details@, include_installed)->Err_0,
{
    let t = chars_of(details);
    match locate(&t) {
        Err(e) => Err(e),
        Ok((i, j)) => {
            proof {
                crate::text::lemma_last_occ(t@, label());
            }
            let a = body_start(&t, i, j);
            if sentinel_at(&t, a, j) {
                let none: Vec<String> = Vec::new();
                assert(strs(none@) =~= Seq::<Seq<char>>::empty());
                return Ok(none);
            }
            let entries = entries_in(details, &t, a, j);
            let kept = filter_entries(&entries, include_installed);
            Ok(texts_of(&kept))
        },
    }
}

/// Once a run fails on a prefix of its packages, it fails the same way on
/// every longer prefix.
proof fn lemma_run_err_stays(ps: Seq<(Seq<char>, Seq<char>)>, inc: bool, k: int, m: int)
    requires
        0 <= k <= m <= ps.len(),
        run_of(ps.take(k), inc) is Err,
    ensures
        run_of(ps.take(m), inc) == run_of(ps.take(k), inc),
    decreases m - k,
{
    if m > k {
        lemma_run_err_stays(ps, inc, k, m - 1);
        assert(ps.take(m).drop_last() =~= ps.take(m - 1));
    }
}

/// Runs the pipeline over `packages` in order: the reports of the packages
/// with reported entries; or the first package whose metadata is malformed,
/// together with the reports of the packages before it.
pub fn run(config: &FilterOptions, packages: &Vec<PackageMetadata>) -> (r: Result<
    Vec<PackageReport>,
    MalformedMetadata,
>)
    ensures
        r is Ok <==> run_of(package_views(packages@), config.include_installed) is Ok,
        r is Ok ==> report_views(r->Ok_0@) == run_of(
            package_views(packages@),
            config.include_installed,
        )->Ok_0,
        r is Err ==> (r->Err_0.package@, r->Err_0.reason) == run_of(
            package_views(packages@),
            config.include_installed,
        )->Err_0,
        r is Err ==> ({
            let e = r->Err_0;
            &&& e.index < packages.len()
            &&& e.package@ == packages@[e.index as int].name@
            &&& package_report_of(packages@[e.index as int].details@, config.include_installed)
                == Err::<Seq<Seq<char>>, MetadataError>(e.reason)
            &&& run_of(package_views(packages@).take(e.index as int), config.include_installed)
                == Ok::<Seq<(Seq<char>, Seq<Seq<char>>)>, (Seq<char>, MetadataError)>(
                report_views(e.reports@),
            )
        }),
{
    let inc = config.include_installed;
    let ghost ps = package_views(packages@);
    let mut reports: Vec<PackageReport> = Vec::new();
    let mut i: usize = 0;
    assert(ps.take(0) =~= Seq::<(Seq<char>, Seq<char>)>::empty());
    assert(report_views(reports@) =~= Seq::<(Seq<char>, Seq<Seq<char>>)>::empty());
    while i < packages.len()
        invariant
            i <= packages.len(),
            ps == package_views(packages@),
            inc == config.include_installed,
            run_of(ps.take(i as int), inc) == Ok::<
                Seq<(Seq<char>, Seq<Seq<char>>)>,
                (Seq<char>, MetadataError),
            >(report_views(reports@)),
        decreases packages.len() - i,
    {
        let p = &packages[i];
        assert(ps.take(i + 1).drop_last() =~= ps.take(i as int));
        assert(ps.take(i + 1).last() == p@);
        match package_report(p.details.as_str(), inc) {
            Err(reason) => {
                proof {
                    lemma_run_err_stays(ps, inc, i + 1, ps.len() as int);
                    assert(ps.take(ps.len() as int) =~= ps);
                }
                return Err(
                    MalformedMetadata { package: p.name.clone(), reason, index: i, reports },
                );
            },
            Ok(deps) => {
                if deps.len() > 0 {
                    let ghost old_reports = reports@;
                    reports.push(PackageReport { name: p.name.clone(), dependencies: deps });
                    assert(report_views(reports@) =~= report_views(old_reports).push(
                        reports@.last()@,
                    ));
                }
            },
        }
        i += 1;
    }
    assert(ps.take(i as int) =~= ps);
    Ok(reports)
}

} // verus!
