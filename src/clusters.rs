//! Skill combinations that more than one project uses.
use crate::generator::StaticGenerator;
use crate::id_map::{keys_after_insert, repeated, IdMap};
use crate::index::{
    add_listing, distinct, first_seen, grouped, lemma_grouped_count, lemma_pair_count_concat,
    lemma_pair_count_listing, listing, occurrences, pair_count, Pairs,
};
use crate::model::{views, Project};
use crate::text::{
    delimiter, join_ids, joined, lex_less, lex_lt, same_id, sort_ascending, sorted_seq,
};
use vstd::prelude::*;

verus! {

/// The key of two skill ids: the two in ascending order, comma-separated.
pub open spec fn pair_key(a: Seq<char>, b: Seq<char>) -> Seq<char> {
    if lex_lt(b, a) {
        joined(seq![b, a], delimiter())
    } else {
        joined(seq![a, b], delimiter())
    }
}

/// The key of a whole skill list: its ids sorted ascending, comma-separated.
pub open spec fn set_key(skills: Seq<Seq<char>>) -> Seq<char> {
    joined(sorted_seq(skills), delimiter())
}

/// The keys of the pairs (i, j) for i < j < end whose ids differ.
pub open spec fn row_keys(skills: Seq<Seq<char>>, i: int, end: int) -> Seq<Seq<char>>
    decreases end - i,
{
    if end <= i + 1 {
        seq![]
    } else if skills[i] == skills[end - 1] {
        row_keys(skills, i, end - 1)
    } else {
        row_keys(skills, i, end - 1).push(pair_key(skills[i], skills[end - 1]))
    }
}

/// The keys of the pairs (i, j) for i < end and i < j whose ids differ.
pub open spec fn pair_keys(skills: Seq<Seq<char>>, end: int) -> Seq<Seq<char>>
    decreases end,
{
    if end <= 0 {
        seq![]
    } else {
        pair_keys(skills, end - 1) + row_keys(skills, end - 1, skills.len() as int)
    }
}

/// The combinations a skill list produces, each once: every pair of
/// different ids in it, then the whole list if it holds three or more;
/// nothing for a list of one or none.
pub open spec fn combinations(skills: Seq<Seq<char>>) -> Seq<Seq<char>> {
    if skills.len() <= 1 {
        seq![]
    } else if skills.len() < 3 {
        distinct(pair_keys(skills, skills.len() as int))
    } else {
        distinct(pair_keys(skills, skills.len() as int).push(set_key(skills)))
    }
}

/// (combination, project id) for each combination of each project.
pub open spec fn combination_pairs(projects: Seq<Project>) -> Pairs
    decreases projects.len(),
{
    if projects.len() == 0 {
        seq![]
    } else {
        combination_pairs(projects.drop_last()) + listing(
            combinations(projects.last().listed()),
            projects.last().key(),
        )
    }
}

/// Combination to the ids of the projects producing it, for combinations
/// produced more than once.
pub open spec fn clusters(projects: Seq<Project>) -> Map<Seq<char>, Seq<Seq<char>>> {
    repeated(grouped(combination_pairs(projects)))
}

/// How many projects produce combination `k`.
pub open spec fn producers(projects: Seq<Project>, k: Seq<char>) -> nat
    decreases projects.len(),
{
    if projects.len() == 0 {
        0
    } else {
        producers(projects.drop_last(), k) + if combinations(projects.last().listed()).contains(
            k,
        ) {
            1nat
        } else {
            0nat
        }
    }
}

/// Adds `k` at the end unless it is already there.
fn push_new(keys: &mut Vec<String>, k: String)
    ensures
        views(final(keys)@) == keys_after_insert(views(old(keys)@), k@),
{
    let mut i: usize = 0;
    while i < keys.len()
        invariant
            i <= keys.len(),
            forall|j: int| 0 <= j < i ==> views(keys@)[j] != k@,
        decreases keys.len() - i,
    {
        if keys[i] == k {
            assert(views(keys@)[i as int] == k@);
            return;
        }
        i = i + 1;
    }
    let ghost before = keys@;
    keys.push(k);
    assert(views(keys@) =~= views(before).push(k@));
}

/// The key of the pair `a`, `b`.
fn combination_key(a: &String, b: &String) -> (r: String)
    ensures
        r@ == pair_key(a@, b@),
{
    let parts = if lex_less(b.as_str(), a.as_str()) {
        vec![b.clone(), a.clone()]
    } else {
        vec![a.clone(), b.clone()]
    };
    assert(views(parts@) =~= if lex_lt(b@, a@) {
        seq![b@, a@]
    } else {
        seq![a@, b@]
    });
    join_ids(&parts)
}

/// The combinations that `skills` produces, each once.
pub fn combinations_of(skills: &Vec<String>) -> (r: Vec<String>)
    ensures
        views(r@) == combinations(views(skills@)),
{
    let ghost s = views(skills@);
    let n = skills.len();
    let mut out: Vec<String> = Vec::new();
    if n <= 1 {
        assert(views(out@) =~= seq![]);
        return out;
    }
    let mut i: usize = 0;
    assert(views(out@) =~= distinct(pair_keys(s, 0)));
    while i < n
        invariant
            n == skills.len(),
            s == views(skills@),
            i <= n,
            views(out@) == distinct(pair_keys(s, i as int)),
        decreases n - i,
    {
        let mut j: usize = i + 1;
        assert(pair_keys(s, i as int) + row_keys(s, i as int, j as int) =~= pair_keys(s, i as int));
        while j < n
            invariant
                n == skills.len(),
                s == views(skills@),
                i < n,
                i + 1 <= j <= n,
                views(out@) == distinct(pair_keys(s, i as int) + row_keys(s, i as int, j as int)),
            decreases n - j,
        {
            let ghost cur = pair_keys(s, i as int) + row_keys(s, i as int, j as int);
            if same_id(skills[i].as_str(), skills[j].as_str()) {
                assert(pair_keys(s, i as int) + row_keys(s, i as int, j + 1) =~= cur);
            } else {
                let key = combination_key(&skills[i], &skills[j]);
                assert(pair_keys(s, i as int) + row_keys(s, i as int, j + 1) =~= cur.push(key@));
                assert(cur.push(key@).drop_last() =~= cur);
                push_new(&mut out, key);
            }
            j = j + 1;
        }
        i = i + 1;
    }
    if n >= 3 {
        let sorted = sort_ascending(skills);
        let key = join_ids(&sorted);
        let ghost cur = pair_keys(s, n as int);
        assert(cur.push(key@).drop_last() =~= cur);
        push_new(&mut out, key);
    }
    out
}

/// For each combination of skills produced by more than one project, the ids
/// of those projects in document order; the keys come in order of first
/// production.
pub fn find_skill_clusters(projects: &Vec<Project>) -> (r: IdMap<Vec<String>>)
    ensures
        r.wf(),
        r@ == clusters(projects@),
        r.keys() == first_seen(combination_pairs(projects@)).filter(
            |k: Seq<char>| grouped(combination_pairs(projects@))[k].len() > 1,
        ),
{
    let mut combos: IdMap<Vec<String>> = IdMap::new();
    let mut i: usize = 0;
    while i < projects.len()
        invariant
            i <= projects.len(),
            combos.wf(),
            combos@ == grouped(combination_pairs(projects@.take(i as int))),
            combos.keys() == first_seen(combination_pairs(projects@.take(i as int))),
        decreases projects.len() - i,
    {
        let project = &projects[i];
        let keys = combinations_of(&project.skills);
        assert(projects@.take(i + 1).drop_last() =~= projects@.take(i as int));
        add_listing(
            &mut combos,
            &keys,
            &project.id,
            Ghost(combination_pairs(projects@.take(i as int))),
        );
        i = i + 1;
    }
    assert(projects@.take(i as int) =~= projects@);
    combos.repeated_entries()
}

impl StaticGenerator {
    /// The skill clusters of the document's projects.
    pub fn skill_clusters(&self) -> (r: IdMap<Vec<String>>)
        ensures
            r.wf(),
            r@ == clusters(self.resume.projects@),
    {
        find_skill_clusters(&self.resume.projects)
    }
}

proof fn lemma_distinct_unique(ids: Seq<Seq<char>>)
    ensures
        distinct(ids).no_duplicates(),
        distinct(ids).to_set() == ids.to_set(),
    decreases ids.len(),
{
    if ids.len() == 0 {
        assert(ids.to_set() =~= Set::<Seq<char>>::empty());
        assert(distinct(ids).to_set() =~= Set::<Seq<char>>::empty());
    } else {
        let rest = distinct(ids.drop_last());
        lemma_distinct_unique(ids.drop_last());
        assert(ids =~= ids.drop_last().push(ids.last()));
        ids.drop_last().lemma_push_to_set_commute(ids.last());
        if !rest.contains(ids.last()) {
            rest.lemma_push_to_set_commute(ids.last());
        } else {
            assert(rest.to_set().insert(ids.last()) =~= rest.to_set());
        }
    }
}

proof fn lemma_occurrences_unique(s: Seq<Seq<char>>, k: Seq<char>)
    requires
        s.no_duplicates(),
    ensures
        occurrences(s, k) == if s.contains(k) {
            1nat
        } else {
            0nat
        },
    decreases s.len(),
{
    if s.len() > 0 {
        let rest = s.drop_last();
        assert(rest.no_duplicates());
        lemma_occurrences_unique(rest, k);
        if s.last() == k {
            if rest.contains(k) {
                let j = choose|j: int| 0 <= j < rest.len() && rest[j] == k;
                assert(s[j] == s[s.len() - 1]);
            }
            assert(s[s.len() - 1] == k);
        } else if s.contains(k) {
            let j = choose|j: int| 0 <= j < s.len() && s[j] == k;
            assert(rest[j] == k);
        } else if rest.contains(k) {
            let j = choose|j: int| 0 <= j < rest.len() && rest[j] == k;
            assert(s[j] == k);
        }
    }
}

proof fn lemma_combination_count(projects: Seq<Project>, k: Seq<char>)
    ensures
        pair_count(combination_pairs(projects), k) == producers(projects, k),
    decreases projects.len(),
{
    if projects.len() > 0 {
        let rest = projects.drop_last();
        let last = projects.last();
        let combos = combinations(last.listed());
        lemma_combination_count(rest, k);
        lemma_pair_count_concat(combination_pairs(rest), listing(combos, last.key()), k);
        lemma_pair_count_listing(combos, last.key(), k);
        let s = last.listed();
        if s.len() > 1 {
            if s.len() < 3 {
                lemma_distinct_unique(pair_keys(s, s.len() as int));
            } else {
                lemma_distinct_unique(pair_keys(s, s.len() as int).push(set_key(s)));
            }
        }
        lemma_occurrences_unique(combos, k);
    }
}

/// A combination is a cluster exactly when more than one project produces
/// it; in particular one produced by a single project never is.
pub proof fn lemma_cluster_needs_two_projects(projects: Seq<Project>, k: Seq<char>)
    ensures
        clusters(projects).contains_key(k) <==> producers(projects, k) > 1,
        producers(projects, k) <= 1 ==> !clusters(projects).contains_key(k),
{
    lemma_combination_count(projects, k);
    lemma_grouped_count(combination_pairs(projects), k);
}

} // verus!
