//! The compatibility analysis: one bucket per observed (game version, loader)
//! pair, filled with the titles of the projects that support both, ranked by
//! how many there are.

use vstd::prelude::*;

verus! {

/// A project record as the repository describes it.
pub struct Project {
    pub slug: String,
    pub title: String,
    pub description: String,
    pub categories: Vec<String>,
    pub client_side: String,
    pub server_side: String,
    pub body: String,
    pub status: String,
    pub requested_status: Option<String>,
    pub issues_url: Option<String>,
    pub source_url: Option<String>,
    pub wiki_url: Option<String>,
    pub discord_url: Option<String>,
    pub project_type: String,
    pub downloads: i32,
    pub icon_url: Option<String>,
    pub color: Option<i32>,
    pub thread_id: Option<String>,
    pub id: String,
    pub team: String,
    pub published: String,
    pub updated: String,
    pub approved: Option<String>,
    pub queued: Option<String>,
    pub followers: i32,
    pub versions: Option<Vec<String>>,
    pub game_versions: Option<Vec<String>>,
    pub loaders: Option<Vec<String>>,
}

/// One (game version, loader) bucket and the mods compatible with both.
pub struct Result {
    pub version: String,
    pub loader: String,
    pub count: i32,
    pub mods: Vec<String>,
}

/// The mathematical value of a bucket.
pub struct Bucket {
    pub version: Seq<char>,
    pub loader: Seq<char>,
    pub count: int,
    pub mods: Seq<Seq<char>>,
}

pub open spec fn str_seq(v: Seq<String>) -> Seq<Seq<char>> {
    v.map_values(|s: String| s@)
}

impl View for Result {
    type V = Bucket;

    open spec fn view(&self) -> Bucket {
        Bucket {
            version: self.version@,
            loader: self.loader@,
            count: self.count as int,
            mods: str_seq(self.mods@),
        }
    }
}

impl Result {
    /// A bucket's count is the number of mods in it.
    pub open spec fn wf(&self) -> bool {
        self.count as int == self.mods@.len()
    }

    pub fn new(version: String, loader: String) -> (r: Result)
        ensures
            r@ == (Bucket { version: version@, loader: loader@, count: 0, mods: Seq::empty() }),
            r.wf(),
    {
        let r = Result { version, loader, count: 0, mods: Vec::new() };
        assert(str_seq(r.mods@) =~= Seq::empty());
        r
    }

    pub fn add(&mut self, project_name: String)
        requires
            old(self).count < i32::MAX,
        ensures
            final(self)@ == (Bucket {
                count: old(self)@.count + 1,
                mods: old(self)@.mods.push(project_name@),
                ..old(self)@
            }),
            old(self).wf() ==> final(self).wf(),
    {
        self.count = self.count + 1;
        self.mods.push(project_name);
        assert(str_seq(self.mods@) =~= str_seq(old(self).mods@).push(project_name@));
    }
}


/// The entries of an optional list; an absent list has none.
pub open spec fn list_of(o: Option<Vec<String>>) -> Seq<Seq<char>> {
    match o {
        Some(v) => str_seq(v@),
        None => Seq::empty(),
    }
}

/// Every loader entry of the projects, in scan order, repeats included.
pub open spec fn all_loaders(ps: Seq<Project>) -> Seq<Seq<char>>
    decreases ps.len(),
{
    if ps.len() == 0 {
        Seq::empty()
    } else {
        all_loaders(ps.drop_last()) + list_of(ps.last().loaders)
    }
}

/// Every game version entry of the projects, in scan order, repeats included.
pub open spec fn all_versions(ps: Seq<Project>) -> Seq<Seq<char>>
    decreases ps.len(),
{
    if ps.len() == 0 {
        Seq::empty()
    } else {
        all_versions(ps.drop_last()) + list_of(ps.last().game_versions)
    }
}

/// The distinct entries of `s`, each at the place where it is first seen.
pub open spec fn first_seen(s: Seq<Seq<char>>) -> Seq<Seq<char>>
    decreases s.len(),
{
    if s.len() == 0 {
        Seq::empty()
    } else {
        let d = first_seen(s.drop_last());
        if d.contains(s.last()) {
            d
        } else {
            d.push(s.last())
        }
    }
}

pub open spec fn distinct_loaders(ps: Seq<Project>) -> Seq<Seq<char>> {
    first_seen(all_loaders(ps))
}

pub open spec fn distinct_versions(ps: Seq<Project>) -> Seq<Seq<char>> {
    first_seen(all_versions(ps))
}

/// A project supports a pair when it lists both the version and the loader.
pub open spec fn supports(p: Project, version: Seq<char>, loader: Seq<char>) -> bool {
    list_of(p.game_versions).contains(version) && list_of(p.loaders).contains(loader)
}

/// The titles of the projects that support the pair, in scan order.
pub open spec fn titles_supporting(ps: Seq<Project>, version: Seq<char>, loader: Seq<char>) -> Seq<
    Seq<char>,
>
    decreases ps.len(),
{
    if ps.len() == 0 {
        Seq::empty()
    } else {
        let t = titles_supporting(ps.drop_last(), version, loader);
        if supports(ps.last(), version, loader) {
            t.push(ps.last().title@)
        } else {
            t
        }
    }
}

/// A project that lacks its game version list or its loader list.
pub open spec fn incomplete(p: Project) -> bool {
    p.game_versions is None || p.loaders is None
}

/// How many of the projects lack a list and so support no pair.
pub open spec fn incomplete_count(ps: Seq<Project>) -> nat
    decreases ps.len(),
{
    if ps.len() == 0 {
        0
    } else {
        incomplete_count(ps.drop_last()) + if incomplete(ps.last()) {
            1nat
        } else {
            0nat
        }
    }
}

/// The bucket of a pair once every project has been checked against it.
pub open spec fn filled(ps: Seq<Project>, version: Seq<char>, loader: Seq<char>) -> Bucket {
    Bucket {
        version,
        loader,
        count: titles_supporting(ps, version, loader).len() as int,
        mods: titles_supporting(ps, version, loader),
    }
}

/// The buckets of one loader, one per version, in version order.
pub open spec fn row(ps: Seq<Project>, loader: Seq<char>, versions: Seq<Seq<char>>) -> Seq<Bucket> {
    versions.map_values(|v: Seq<char>| filled(ps, v, loader))
}

/// The buckets of the Cartesian product, loader-major.
pub open spec fn grid(ps: Seq<Project>, loaders: Seq<Seq<char>>, versions: Seq<Seq<char>>) -> Seq<
    Bucket,
>
    decreases loaders.len(),
{
    if loaders.len() == 0 {
        Seq::empty()
    } else {
        grid(ps, loaders.drop_last(), versions) + row(ps, loaders.last(), versions)
    }
}

/// Places `b` after every bucket at the end of `s` whose count is at least
/// its own: one step of a stable sort by descending count.
pub open spec fn insert_desc(s: Seq<Bucket>, b: Bucket) -> Seq<Bucket>
    decreases s.len(),
{
    if s.len() == 0 {
        seq![b]
    } else if s.last().count >= b.count {
        s.push(b)
    } else {
        insert_desc(s.drop_last(), b).push(s.last())
    }
}

/// `s` stably sorted by descending count.
pub open spec fn rank(s: Seq<Bucket>) -> Seq<Bucket>
    decreases s.len(),
{
    if s.len() == 0 {
        Seq::empty()
    } else {
        insert_desc(rank(s.drop_last()), s.last())
    }
}

/// What the analysis returns for the projects `ps`.
pub open spec fn ranked_buckets(ps: Seq<Project>) -> Seq<Bucket> {
    rank(grid(ps, distinct_loaders(ps), distinct_versions(ps)))
}

pub open spec fn views(v: Seq<Result>) -> Seq<Bucket> {
    v.map_values(|r: Result| r@)
}

pub open spec fn sorted_desc(s: Seq<Bucket>) -> bool {
    forall|i: int| 0 <= i < s.len() - 1 ==> #[trigger] s[i].count >= s[i + 1].count
}


fn contains_str(v: &Vec<String>, s: &String) -> (r: bool)
    ensures
        r == str_seq(v@).contains(s@),
{
    let mut j: usize = 0;
    while j < v.len()
        invariant
            j <= v@.len(),
            forall|k: int| 0 <= k < j ==> v@[k]@ != s@,
        decreases v@.len() - j,
    {
        if v[j].eq(s) {
            assert(str_seq(v@)[j as int] == s@);
            return true;
        }
        j = j + 1;
    }
    assert forall|k: int| 0 <= k < str_seq(v@).len() implies str_seq(v@)[k] != s@ by {}
    false
}

fn list_contains(o: &Option<Vec<String>>, s: &String) -> (r: bool)
    ensures
        r == list_of(*o).contains(s@),
{
    match o {
        Some(v) => contains_str(v, s),
        None => false,
    }
}

fn project_supports(p: &Project, version: &String, loader: &String) -> (r: bool)
    ensures
        r == supports(*p, version@, loader@),
{
    list_contains(&p.game_versions, version) && list_contains(&p.loaders, loader)
}

/// Appends to `seen` the entries of `entries` that it does not hold yet.
fn add_unseen(seen: &mut Vec<String>, entries: &Option<Vec<String>>, Ghost(before): Ghost<
    Seq<Seq<char>>,
>)
    requires
        str_seq(old(seen)@) == first_seen(before),
    ensures
        str_seq(final(seen)@) == first_seen(before + list_of(*entries)),
{
    match entries {
        Some(v) => {
            let mut j: usize = 0;
            while j < v.len()
                invariant
                    j <= v@.len(),
                    str_seq(seen@) == first_seen(before + str_seq(v@).take(j as int)),
                decreases v@.len() - j,
            {
                let ghost s = before + str_seq(v@).take(j as int + 1);
                assert(s.drop_last() =~= before + str_seq(v@).take(j as int));
                assert(s.last() == v@[j as int]@);
                if !contains_str(seen, &v[j]) {
                    let ghost old_seen = seen@;
                    seen.push(v[j].clone());
                    assert(str_seq(seen@) =~= str_seq(old_seen).push(v@[j as int]@));
                }
                j = j + 1;
            }
            assert(str_seq(v@).take(v@.len() as int) =~= str_seq(v@));
        },
        None => {
            assert(before + list_of(*entries) =~= before);
        },
    }
}

/// The bucket of a pair, checked against every project.
fn fill_bucket(projects: &Vec<Project>, version: &String, loader: &String) -> (r: Result)
    requires
        projects@.len() <= i32::MAX,
    ensures
        r@ == filled(projects@, version@, loader@),
        r.wf(),
{
    let mut b = Result::new(version.clone(), loader.clone());
    let mut k: usize = 0;
    while k < projects.len()
        invariant
            k <= projects@.len(),
            projects@.len() <= i32::MAX,
            b.wf(),
            b@ == filled(projects@.take(k as int), version@, loader@),
        decreases projects@.len() - k,
    {
        proof {
            lemma_titles_len(projects@.take(k as int), version@, loader@);
            assert(projects@.take(k as int + 1).drop_last() =~= projects@.take(k as int));
        }
        if project_supports(&projects[k], version, loader) {
            b.add(projects[k].title.clone());
        }
        k = k + 1;
    }
    assert(projects@.take(projects@.len() as int) =~= projects@);
    b
}

proof fn lemma_titles_len(ps: Seq<Project>, version: Seq<char>, loader: Seq<char>)
    ensures
        titles_supporting(ps, version, loader).len() <= ps.len(),
    decreases ps.len(),
{
    if ps.len() > 0 {
        lemma_titles_len(ps.drop_last(), version, loader);
    }
}


proof fn lemma_insert_at(s: Seq<Bucket>, b: Bucket, pos: int)
    requires
        0 <= pos <= s.len(),
        forall|t: int| pos <= t < s.len() ==> #[trigger] s[t].count < b.count,
        pos == 0 || s[pos - 1].count >= b.count,
    ensures
        insert_desc(s, b) == s.take(pos).push(b) + s.skip(pos),
    decreases s.len(),
{
    if s.len() == 0 {
        assert(s.take(pos).push(b) + s.skip(pos) =~= seq![b]);
    } else if pos == s.len() {
        assert(s.take(pos).push(b) + s.skip(pos) =~= s.push(b));
    } else {
        assert(s[s.len() - 1].count < b.count);
        let t = s.drop_last();
        lemma_insert_at(t, b, pos);
        assert((t.take(pos).push(b) + t.skip(pos)).push(s.last()) =~= s.take(pos).push(b) + s.skip(
            pos,
        ));
    }
}

/// Inserts `b` into `out` after every bucket whose count is at least its own.
fn insert_ranked(out: &mut Vec<Result>, b: Result)
    ensures
        views(final(out)@) == insert_desc(views(old(out)@), b@),
{
    let mut pos: usize = out.len();
    while pos > 0 && out[pos - 1].count < b.count
        invariant
            pos <= out@.len(),
            forall|t: int| pos <= t < out@.len() ==> #[trigger] out@[t].count < b.count,
        decreases pos,
    {
        pos = pos - 1;
    }
    let ghost before = views(out@);
    proof {
        assert forall|t: int| pos <= t < before.len() implies #[trigger] before[t].count
            < b@.count by {
            assert(out@[t].count < b.count);
        }
        lemma_insert_at(before, b@, pos as int);
    }
    out.insert(pos, b);
    assert(views(out@) =~= before.take(pos as int).push(b@) + before.skip(pos as int));
}

/// One bucket per pair of the Cartesian product, loader-major.
fn build_grid(projects: &Vec<Project>, loaders: &Vec<String>, versions: &Vec<String>) -> (r: Vec<
    Result,
>)
    requires
        projects@.len() <= i32::MAX,
    ensures
        views(r@) == grid(projects@, str_seq(loaders@), str_seq(versions@)),
{
    let ghost ps = projects@;
    let ghost ls = str_seq(loaders@);
    let ghost vs = str_seq(versions@);
    let mut g: Vec<Result> = Vec::new();
    assert(views(g@) =~= grid(ps, ls.take(0), vs));
    let mut i: usize = 0;
    while i < loaders.len()
        invariant
            i <= loaders@.len(),
            projects@ == ps,
            ls == str_seq(loaders@),
            vs == str_seq(versions@),
            ps.len() <= i32::MAX,
            views(g@) == grid(ps, ls.take(i as int), vs),
        decreases loaders@.len() - i,
    {
        assert(row(ps, ls[i as int], vs.take(0)) =~= Seq::empty());
        assert(views(g@) =~= grid(ps, ls.take(i as int), vs) + row(ps, ls[i as int], vs.take(0)));
        let mut j: usize = 0;
        while j < versions.len()
            invariant
                i < loaders@.len(),
                j <= versions@.len(),
                projects@ == ps,
                ls == str_seq(loaders@),
                vs == str_seq(versions@),
                ps.len() <= i32::MAX,
                views(g@) == grid(ps, ls.take(i as int), vs) + row(ps, ls[i as int], vs.take(
                    j as int,
                )),
            decreases versions@.len() - j,
        {
            let b = fill_bucket(projects, &versions[j], &loaders[i]);
            let ghost old_g = g@;
            g.push(b);
            assert(views(g@) =~= views(old_g).push(b@));
            assert(row(ps, ls[i as int], vs.take(j as int + 1)) =~= row(
                ps,
                ls[i as int],
                vs.take(j as int),
            ).push(filled(ps, vs[j as int], ls[i as int])));
            j = j + 1;
        }
        assert(vs.take(vs.len() as int) =~= vs);
        assert(ls.take(i as int + 1).drop_last() =~= ls.take(i as int));
        i = i + 1;
    }
    assert(ls.take(ls.len() as int) =~= ls);
    g
}

/// The buckets of `buckets`, stably sorted by descending count.
fn rank_buckets(buckets: Vec<Result>) -> (r: Vec<Result>)
    ensures
        views(r@) == rank(views(buckets@)),
{
    let ghost g0 = views(buckets@);
    let mut rest = buckets;
    let mut out: Vec<Result> = Vec::new();
    assert(views(out@) =~= rank(g0.take(0)));
    assert(views(rest@) =~= g0.skip(0));
    let n = rest.len();
    let mut k: usize = 0;
    while k < n
        invariant
            k <= n,
            n == g0.len(),
            views(rest@) == g0.skip(k as int),
            views(out@) == rank(g0.take(k as int)),
        decreases n - k,
    {
        let ghost old_rest = rest@;
        assert(views(old_rest).len() == old_rest.len());
        assert(views(old_rest)[0] == g0[k as int]);
        let b = rest.remove(0);
        assert(b@ == g0[k as int]);
        assert forall|t: int| 0 <= t < rest@.len() implies views(rest@)[t] == g0.skip(
            k as int + 1,
        )[t] by {
            assert(rest@[t] == old_rest[t + 1]);
            assert(views(old_rest)[t + 1] == g0.skip(k as int)[t + 1]);
        }
        assert(views(rest@) =~= g0.skip(k as int + 1));
        assert(g0.take(k as int + 1).drop_last() =~= g0.take(k as int));
        insert_ranked(&mut out, b);
        k = k + 1;
    }
    assert(g0.take(n as int) =~= g0);
    out
}

/// The number of projects that the analysis skips for want of a game
/// version list or a loader list.
pub fn count_incomplete(projects: &Vec<Project>) -> (r: usize)
    ensures
        r == incomplete_count(projects@),
{
    let ghost ps = projects@;
    let mut n: usize = 0;
    let mut i: usize = 0;
    while i < projects.len()
        invariant
            i <= ps.len(),
            projects@ == ps,
            n == incomplete_count(ps.take(i as int)),
            n <= i,
        decreases ps.len() - i,
    {
        assert(ps.take(i as int + 1).drop_last() =~= ps.take(i as int));
        if projects[i].game_versions.is_none() || projects[i].loaders.is_none() {
            n = n + 1;
        }
        i = i + 1;
    }
    assert(ps.take(ps.len() as int) =~= ps);
    n
}

/// Ranks every (game version, loader) pair that the projects mention by how
/// many projects support it, with the titles of those projects. A project
/// without a version list or a loader list supports no pair.
pub fn find_most_compatible_mods(projects: &Vec<Project>) -> (r: Vec<Result>)
    requires
        projects@.len() <= i32::MAX,
    ensures
        views(r@) == ranked_buckets(projects@),
{
    let ghost ps = projects@;
    let mut loaders_vec: Vec<String> = Vec::new();
    let mut versions_vec: Vec<String> = Vec::new();
    assert(str_seq(loaders_vec@) =~= first_seen(all_loaders(ps.take(0))));
    assert(str_seq(versions_vec@) =~= first_seen(all_versions(ps.take(0))));
    let mut i: usize = 0;
    while i < projects.len()
        invariant
            i <= ps.len(),
            projects@ == ps,
            str_seq(loaders_vec@) == first_seen(all_loaders(ps.take(i as int))),
            str_seq(versions_vec@) == first_seen(all_versions(ps.take(i as int))),
        decreases ps.len() - i,
    {
        assert(ps.take(i as int + 1).drop_last() =~= ps.take(i as int));
        add_unseen(&mut loaders_vec, &projects[i].loaders, Ghost(all_loaders(ps.take(i as int))));
        add_unseen(
            &mut versions_vec,
            &projects[i].game_versions,
            Ghost(all_versions(ps.take(i as int))),
        );
        i = i + 1;
    }
    assert(ps.take(ps.len() as int) =~= ps);
    let g = build_grid(projects, &loaders_vec, &versions_vec);
    rank_buckets(g)
}


proof fn lemma_insert_desc(s: Seq<Bucket>, b: Bucket)
    ensures
        insert_desc(s, b).len() == s.len() + 1,
        insert_desc(s, b).last() == b || (s.len() > 0 && insert_desc(s, b).last() == s.last()),
        forall|i: int|
            0 <= i < s.len() + 1 ==> #[trigger] insert_desc(s, b)[i] == b || s.contains(
                insert_desc(s, b)[i],
            ),
        sorted_desc(s) ==> sorted_desc(insert_desc(s, b)),
    decreases s.len(),
{
    let ins = insert_desc(s, b);
    if s.len() == 0 {
    } else if s.last().count >= b.count {
        assert forall|i: int| 0 <= i < s.len() + 1 implies #[trigger] ins[i] == b || s.contains(
            ins[i],
        ) by {
            if i < s.len() {
                assert(ins[i] == s[i]);
            }
        }
    } else {
        let t = s.drop_last();
        lemma_insert_desc(t, b);
        let it = insert_desc(t, b);
        assert(ins == it.push(s.last()));
        assert forall|i: int| 0 <= i < s.len() + 1 implies #[trigger] ins[i] == b || s.contains(
            ins[i],
        ) by {
            if i < s.len() {
                assert(ins[i] == it[i]);
                if it[i] != b {
                    let j = choose|j: int| 0 <= j < t.len() && t[j] == it[i];
                    assert(s[j] == it[i]);
                }
            } else {
                assert(s[s.len() - 1] == ins[i]);
            }
        }
        if sorted_desc(s) {
            assert forall|i: int| 0 <= i < t.len() - 1 implies #[trigger] t[i].count >= t[i
                + 1].count by {
                assert(s[i].count >= s[i + 1].count);
            }
            if t.len() > 0 {
                assert(s[s.len() - 2].count >= s[s.len() - 1].count);
            }
            assert forall|i: int| 0 <= i < ins.len() - 1 implies #[trigger] ins[i].count >= ins[i
                + 1].count by {
                if i < it.len() - 1 {
                    assert(it[i].count >= it[i + 1].count);
                }
            }
        }
    }
}

proof fn lemma_rank(s: Seq<Bucket>)
    ensures
        rank(s).len() == s.len(),
        sorted_desc(rank(s)),
        forall|i: int| 0 <= i < s.len() ==> s.contains(#[trigger] rank(s)[i]),
    decreases s.len(),
{
    if s.len() > 0 {
        let t = s.drop_last();
        lemma_rank(t);
        lemma_insert_desc(rank(t), s.last());
        assert forall|i: int| 0 <= i < s.len() implies s.contains(#[trigger] rank(s)[i]) by {
            if rank(s)[i] != s.last() {
                assert(rank(t).contains(rank(s)[i]));
                let j = choose|j: int| 0 <= j < rank(t).len() && rank(t)[j] == rank(s)[i];
                assert(t.contains(rank(t)[j]));
                let m = choose|m: int| 0 <= m < t.len() && t[m] == rank(t)[j];
                assert(s[m] == rank(s)[i]);
            } else {
                assert(s[s.len() - 1] == rank(s)[i]);
            }
        }
    }
}

proof fn lemma_grid(ps: Seq<Project>, loaders: Seq<Seq<char>>, versions: Seq<Seq<char>>)
    ensures
        grid(ps, loaders, versions).len() == loaders.len() * versions.len(),
        forall|i: int|
            0 <= i < grid(ps, loaders, versions).len() ==> #[trigger] grid(
                ps,
                loaders,
                versions,
            )[i].count == grid(ps, loaders, versions)[i].mods.len(),
    decreases loaders.len(),
{
    if loaders.len() > 0 {
        let l = loaders.drop_last();
        lemma_grid(ps, l, versions);
        assert(l.len() * versions.len() + versions.len() == loaders.len() * versions.len())
            by (nonlinear_arith)
            requires
                l.len() == loaders.len() - 1,
        ;
        let g = grid(ps, l, versions);
        let r = row(ps, loaders.last(), versions);
        assert forall|i: int|
            0 <= i < grid(ps, loaders, versions).len() implies #[trigger] grid(
            ps,
            loaders,
            versions,
        )[i].count == grid(ps, loaders, versions)[i].mods.len() by {
            if i < g.len() {
                assert(grid(ps, loaders, versions)[i] == g[i]);
            } else {
                assert(grid(ps, loaders, versions)[i] == r[i - g.len()]);
            }
        }
    }
}

/// The analysis returns one bucket for each pair of a distinct loader and a
/// distinct game version, including the pairs that no project supports.
pub proof fn lemma_one_bucket_per_pair(ps: Seq<Project>)
    ensures
        ranked_buckets(ps).len() == distinct_loaders(ps).len() * distinct_versions(ps).len(),
{
    lemma_grid(ps, distinct_loaders(ps), distinct_versions(ps));
    lemma_rank(grid(ps, distinct_loaders(ps), distinct_versions(ps)));
}

/// Adjacent buckets of the analysis are in non-increasing order of count.
pub proof fn lemma_ranked_descending(ps: Seq<Project>)
    ensures
        sorted_desc(ranked_buckets(ps)),
{
    lemma_rank(grid(ps, distinct_loaders(ps), distinct_versions(ps)));
}

/// Every bucket of the analysis counts exactly the mods that it lists.
pub proof fn lemma_count_is_number_of_mods(ps: Seq<Project>)
    ensures
        forall|i: int|
            0 <= i < ranked_buckets(ps).len() ==> #[trigger] ranked_buckets(ps)[i].count
                == ranked_buckets(ps)[i].mods.len(),
{
    let g = grid(ps, distinct_loaders(ps), distinct_versions(ps));
    lemma_grid(ps, distinct_loaders(ps), distinct_versions(ps));
    lemma_rank(g);
    assert forall|i: int| 0 <= i < ranked_buckets(ps).len() implies #[trigger] ranked_buckets(
        ps,
    )[i].count == ranked_buckets(ps)[i].mods.len() by {
        assert(g.contains(rank(g)[i]));
        let j = choose|j: int| 0 <= j < g.len() && g[j] == rank(g)[i];
        assert(g[j].count == g[j].mods.len());
    }
}

/// With no projects there is no bucket.
pub proof fn lemma_no_projects_no_buckets()
    ensures
        ranked_buckets(Seq::empty()).len() == 0,
{
    lemma_one_bucket_per_pair(Seq::empty());
    assert(distinct_loaders(Seq::empty()).len() == 0);
}

/// The analysis depends on its input alone: two runs on the same projects
/// give the same ranked buckets.
pub proof fn lemma_analysis_repeatable(a: Seq<Project>, b: Seq<Project>)
    requires
        a == b,
    ensures
        ranked_buckets(a) == ranked_buckets(b),
{
}

} // verus!
