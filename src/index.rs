//! The lookup indices of a document: which projects use a skill, which
//! experiences reach a skill, which experiences reference a project, and where
//! each entity sits by its id.
use crate::id_map::{appended, keys_after_insert, IdMap};
use crate::model::{views, Experience, Project, Resume, Skill};
use crate::text::{lemma_strictly_sorted_no_duplicates, lemma_strictly_sorted_unique, strictly_sorted};
use vstd::prelude::*;

verus! {

/// A relation as (listed id, owner id) pairs.
pub type Pairs = Seq<(Seq<char>, Seq<char>)>;

/// One pair for each id that `owner` lists, in list order.
pub open spec fn listing(listed: Seq<Seq<char>>, owner: Seq<char>) -> Pairs {
    listed.map_values(|k: Seq<char>| (k, owner))
}

/// For each listed id, the owners that list it, in order and with repeats.
pub open spec fn grouped(pairs: Pairs) -> Map<Seq<char>, Seq<Seq<char>>>
    decreases pairs.len(),
{
    if pairs.len() == 0 {
        Map::empty()
    } else {
        appended(grouped(pairs.drop_last()), pairs.last().0, pairs.last().1)
    }
}

/// The listed ids in order of first appearance.
pub open spec fn first_seen(pairs: Pairs) -> Seq<Seq<char>>
    decreases pairs.len(),
{
    if pairs.len() == 0 {
        seq![]
    } else {
        keys_after_insert(first_seen(pairs.drop_last()), pairs.last().0)
    }
}

/// The ids in order of first appearance.
pub open spec fn distinct(ids: Seq<Seq<char>>) -> Seq<Seq<char>>
    decreases ids.len(),
{
    if ids.len() == 0 {
        seq![]
    } else {
        keys_after_insert(distinct(ids.drop_last()), ids.last())
    }
}

/// Each id to the last position that holds it.
pub open spec fn positions(ids: Seq<Seq<char>>) -> Map<Seq<char>, usize>
    decreases ids.len(),
{
    if ids.len() == 0 {
        Map::empty()
    } else {
        positions(ids.drop_last()).insert(ids.last(), (ids.len() - 1) as usize)
    }
}

pub open spec fn experience_ids(experiences: Seq<Experience>) -> Seq<Seq<char>> {
    experiences.map_values(|e: Experience| e.key())
}

pub open spec fn project_ids(projects: Seq<Project>) -> Seq<Seq<char>> {
    projects.map_values(|p: Project| p.key())
}

pub open spec fn skill_ids(skills: Seq<Skill>) -> Seq<Seq<char>> {
    skills.map_values(|s: Skill| s.key())
}

/// (skill id, project id) for each skill that each project lists.
pub open spec fn project_pairs(projects: Seq<Project>) -> Pairs
    decreases projects.len(),
{
    if projects.len() == 0 {
        seq![]
    } else {
        project_pairs(projects.drop_last()) + listing(
            projects.last().listed(),
            projects.last().key(),
        )
    }
}

/// (project id, experience id) for each project that each experience lists.
pub open spec fn experience_pairs(experiences: Seq<Experience>) -> Pairs
    decreases experiences.len(),
{
    if experiences.len() == 0 {
        seq![]
    } else {
        experience_pairs(experiences.drop_last()) + listing(
            experiences.last().listed(),
            experiences.last().key(),
        )
    }
}

/// The project that `id` names: the last one with that id.
pub open spec fn resolves(projects: Seq<Project>, id: Seq<char>) -> bool {
    positions(project_ids(projects)).contains_key(id)
}

pub open spec fn resolved(projects: Seq<Project>, id: Seq<char>) -> Project {
    projects[positions(project_ids(projects))[id] as int]
}

/// (skill id, `owner`) for each skill of each listed project id that names a
/// project; ids that name none add nothing.
pub open spec fn reach_via(listed: Seq<Seq<char>>, owner: Seq<char>, projects: Seq<Project>) -> Pairs
    decreases listed.len(),
{
    if listed.len() == 0 {
        seq![]
    } else {
        reach_via(listed.drop_last(), owner, projects) + if resolves(projects, listed.last()) {
            listing(resolved(projects, listed.last()).listed(), owner)
        } else {
            seq![]
        }
    }
}

/// (skill id, experience id) for each skill reached through each experience's
/// projects.
pub open spec fn reach_pairs(experiences: Seq<Experience>, projects: Seq<Project>) -> Pairs
    decreases experiences.len(),
{
    if experiences.len() == 0 {
        seq![]
    } else {
        reach_pairs(experiences.drop_last(), projects) + reach_via(
            experiences.last().listed(),
            experiences.last().key(),
            projects,
        )
    }
}

/// The derived lookup structures of a document.
#[derive(Debug)]
pub struct ResumeIndex {
    /// Skill id to the ids of the projects that list it.
    pub skill_to_projects: IdMap<Vec<String>>,
    /// Skill id to the ids of the experiences that reach it, ascending, each once.
    pub skill_to_experiences: IdMap<Vec<String>>,
    /// Project id to the ids of the experiences that list it.
    pub project_to_experiences: IdMap<Vec<String>>,
    /// Experience id to its position in the document's experiences.
    pub experience_lookup: IdMap<usize>,
    /// Project id to its position in the document's projects.
    pub project_lookup: IdMap<usize>,
    /// Skill id to its position in the document's skills.
    pub skill_lookup: IdMap<usize>,
}

impl ResumeIndex {
    /// This is the index of document `r`.
    pub open spec fn indexes(self, r: Resume) -> bool {
        let exps = r.experiences@;
        let projs = r.projects@;
        let reach = reach_pairs(exps, projs);
        &&& self.skill_to_projects.wf()
        &&& self.skill_to_projects@ == grouped(project_pairs(projs))
        &&& self.skill_to_projects.keys() == first_seen(project_pairs(projs))
        &&& self.project_to_experiences.wf()
        &&& self.project_to_experiences@ == grouped(experience_pairs(exps))
        &&& self.project_to_experiences.keys() == first_seen(experience_pairs(exps))
        &&& self.skill_to_experiences.wf()
        &&& self.skill_to_experiences@.dom() == grouped(reach).dom()
        &&& self.skill_to_experiences.keys() == first_seen(reach)
        &&& forall|k: Seq<char>| #[trigger]
            self.skill_to_experiences@.contains_key(k) ==> strictly_sorted(
                self.skill_to_experiences@[k],
            ) && self.skill_to_experiences@[k].to_set() == grouped(reach)[k].to_set()
        &&& self.experience_lookup.wf()
        &&& self.experience_lookup@ == positions(experience_ids(exps))
        &&& self.experience_lookup.keys() == distinct(experience_ids(exps))
        &&& self.project_lookup.wf()
        &&& self.project_lookup@ == positions(project_ids(projs))
        &&& self.project_lookup.keys() == distinct(project_ids(projs))
        &&& self.skill_lookup.wf()
        &&& self.skill_lookup@ == positions(skill_ids(r.skills@))
        &&& self.skill_lookup.keys() == distinct(skill_ids(r.skills@))
    }
}

/// A position found for an id holds an entity with that id.
pub proof fn lemma_positions(ids: Seq<Seq<char>>, k: Seq<char>)
    requires
        positions(ids).contains_key(k),
        ids.len() <= usize::MAX,
    ensures
        positions(ids)[k] < ids.len(),
        ids[positions(ids)[k] as int] == k,
    decreases ids.len(),
{
    if ids.last() != k {
        lemma_positions(ids.drop_last(), k);
        assert(ids[positions(ids)[k] as int] == ids.drop_last()[positions(ids)[k] as int]);
    }
}

/// Appends `owner` to the list of each id in `listed`, in order.
pub(crate) fn add_listing(
    m: &mut IdMap<Vec<String>>,
    listed: &Vec<String>,
    owner: &String,
    Ghost(prev): Ghost<Pairs>,
)
    requires
        old(m).wf(),
        old(m)@ == grouped(prev),
        old(m).keys() == first_seen(prev),
    ensures
        final(m).wf(),
        final(m)@ == grouped(prev + listing(views(listed@), owner@)),
        final(m).keys() == first_seen(prev + listing(views(listed@), owner@)),
{
    let mut j: usize = 0;
    assert(prev + listing(views(listed@).take(0), owner@) =~= prev);
    while j < listed.len()
        invariant
            j <= listed.len(),
            m.wf(),
            m@ == grouped(prev + listing(views(listed@).take(j as int), owner@)),
            m.keys() == first_seen(prev + listing(views(listed@).take(j as int), owner@)),
        decreases listed.len() - j,
    {
        let ghost cur = prev + listing(views(listed@).take(j as int), owner@);
        let ghost next = prev + listing(views(listed@).take(j + 1), owner@);
        assert(next =~= cur.push((listed@[j as int]@, owner@)));
        assert(next.drop_last() =~= cur);
        m.append(&listed[j], owner.clone());
        j = j + 1;
    }
    assert(views(listed@).take(listed.len() as int) =~= views(listed@));
}

fn experience_lookup(experiences: &Vec<Experience>) -> (m: IdMap<usize>)
    ensures
        m.wf(),
        m@ == positions(experience_ids(experiences@)),
        m.keys() == distinct(experience_ids(experiences@)),
{
    let ghost ids = experience_ids(experiences@);
    let mut m: IdMap<usize> = IdMap::new();
    let mut i: usize = 0;
    while i < experiences.len()
        invariant
            i <= experiences.len(),
            ids == experience_ids(experiences@),
            m.wf(),
            m@ == positions(ids.take(i as int)),
            m.keys() == distinct(ids.take(i as int)),
        decreases experiences.len() - i,
    {
        assert(ids.take(i + 1).drop_last() =~= ids.take(i as int));
        m.insert(experiences[i].id.clone(), i);
        i = i + 1;
    }
    assert(ids.take(i as int) =~= ids);
    m
}

fn project_lookup(projects: &Vec<Project>) -> (m: IdMap<usize>)
    ensures
        m.wf(),
        m@ == positions(project_ids(projects@)),
        m.keys() == distinct(project_ids(projects@)),
{
    let ghost ids = project_ids(projects@);
    let mut m: IdMap<usize> = IdMap::new();
    let mut i: usize = 0;
    while i < projects.len()
        invariant
            i <= projects.len(),
            ids == project_ids(projects@),
            m.wf(),
            m@ == positions(ids.take(i as int)),
            m.keys() == distinct(ids.take(i as int)),
        decreases projects.len() - i,
    {
        assert(ids.take(i + 1).drop_last() =~= ids.take(i as int));
        m.insert(projects[i].id.clone(), i);
        i = i + 1;
    }
    assert(ids.take(i as int) =~= ids);
    m
}

fn skill_lookup(skills: &Vec<Skill>) -> (m: IdMap<usize>)
    ensures
        m.wf(),
        m@ == positions(skill_ids(skills@)),
        m.keys() == distinct(skill_ids(skills@)),
{
    let ghost ids = skill_ids(skills@);
    let mut m: IdMap<usize> = IdMap::new();
    let mut i: usize = 0;
    while i < skills.len()
        invariant
            i <= skills.len(),
            ids == skill_ids(skills@),
            m.wf(),
            m@ == positions(ids.take(i as int)),
            m.keys() == distinct(ids.take(i as int)),
        decreases skills.len() - i,
    {
        assert(ids.take(i + 1).drop_last() =~= ids.take(i as int));
        m.insert(skills[i].id.clone(), i);
        i = i + 1;
    }
    assert(ids.take(i as int) =~= ids);
    m
}

/// Skill id to the ids of the projects listing it, with repeats.
fn projects_by_skill(projects: &Vec<Project>) -> (m: IdMap<Vec<String>>)
    ensures
        m.wf(),
        m@ == grouped(project_pairs(projects@)),
        m.keys() == first_seen(project_pairs(projects@)),
{
    let mut m: IdMap<Vec<String>> = IdMap::new();
    let mut i: usize = 0;
    while i < projects.len()
        invariant
            i <= projects.len(),
            m.wf(),
            m@ == grouped(project_pairs(projects@.take(i as int))),
            m.keys() == first_seen(project_pairs(projects@.take(i as int))),
        decreases projects.len() - i,
    {
        let project = &projects[i];
        assert(projects@.take(i + 1).drop_last() =~= projects@.take(i as int));
        add_listing(&mut m, &project.skills, &project.id, Ghost(project_pairs(projects@.take(i as int))));
        i = i + 1;
    }
    assert(projects@.take(i as int) =~= projects@);
    m
}

/// Project id to the ids of the experiences listing it, with repeats.
fn experiences_by_project(experiences: &Vec<Experience>) -> (m: IdMap<Vec<String>>)
    ensures
        m.wf(),
        m@ == grouped(experience_pairs(experiences@)),
        m.keys() == first_seen(experience_pairs(experiences@)),
{
    let mut m: IdMap<Vec<String>> = IdMap::new();
    let mut i: usize = 0;
    while i < experiences.len()
        invariant
            i <= experiences.len(),
            m.wf(),
            m@ == grouped(experience_pairs(experiences@.take(i as int))),
            m.keys() == first_seen(experience_pairs(experiences@.take(i as int))),
        decreases experiences.len() - i,
    {
        let experience = &experiences[i];
        assert(experiences@.take(i + 1).drop_last() =~= experiences@.take(i as int));
        add_listing(
            &mut m,
            &experience.projects,
            &experience.id,
            Ghost(experience_pairs(experiences@.take(i as int))),
        );
        i = i + 1;
    }
    assert(experiences@.take(i as int) =~= experiences@);
    m
}

/// Skill id to the ids of the experiences reaching it through a project,
/// with repeats.
fn experiences_by_skill(
    experiences: &Vec<Experience>,
    projects: &Vec<Project>,
    lookup: &IdMap<usize>,
) -> (m: IdMap<Vec<String>>)
    requires
        lookup.wf(),
        lookup@ == positions(project_ids(projects@)),
    ensures
        m.wf(),
        m@ == grouped(reach_pairs(experiences@, projects@)),
        m.keys() == first_seen(reach_pairs(experiences@, projects@)),
{
    let ghost projs = projects@;
    let mut m: IdMap<Vec<String>> = IdMap::new();
    let mut i: usize = 0;
    while i < experiences.len()
        invariant
            i <= experiences.len(),
            projs == projects@,
            lookup.wf(),
            lookup@ == positions(project_ids(projs)),
            m.wf(),
            m@ == grouped(reach_pairs(experiences@.take(i as int), projs)),
            m.keys() == first_seen(reach_pairs(experiences@.take(i as int), projs)),
        decreases experiences.len() - i,
    {
        let experience = &experiences[i];
        let ghost done = reach_pairs(experiences@.take(i as int), projs);
        let ghost listed = experience.listed();
        let mut j: usize = 0;
        assert(done + reach_via(listed.take(0), experience.key(), projs) =~= done);
        while j < experience.projects.len()
            invariant
                j <= experience.projects.len(),
                projs == projects@,
                listed == experience.listed(),
                lookup.wf(),
                lookup@ == positions(project_ids(projs)),
                m.wf(),
                m@ == grouped(done + reach_via(listed.take(j as int), experience.key(), projs)),
                m.keys() == first_seen(done + reach_via(listed.take(j as int), experience.key(), projs)),
            decreases experience.projects.len() - j,
        {
            let ghost cur = done + reach_via(listed.take(j as int), experience.key(), projs);
            assert(listed.take(j + 1).drop_last() =~= listed.take(j as int));
            assert(listed.take(j + 1).last() == experience.projects@[j as int]@);
            match lookup.get(experience.projects[j].as_str()) {
                Some(at) => {
                    proof {
                        assert(project_ids(projs).len() == projects.len());
                        lemma_positions(project_ids(projs), experience.projects@[j as int]@);
                    }
                    let project = &projects[*at];
                    add_listing(&mut m, &project.skills, &experience.id, Ghost(cur));
                    assert(cur + listing(views(project.skills@), experience.key()) =~= done
                        + reach_via(listed.take(j + 1), experience.key(), projs));
                },
                None => {
                    assert(cur =~= done + reach_via(listed.take(j + 1), experience.key(), projs));
                },
            }
            j = j + 1;
        }
        assert(listed.take(j as int) =~= listed);
        assert(experiences@.take(i + 1).drop_last() =~= experiences@.take(i as int));
        i = i + 1;
    }
    assert(experiences@.take(i as int) =~= experiences@);
    m
}

/// Builds the lookup indices of `resume`.
pub fn build_index(resume: &Resume) -> (idx: ResumeIndex)
    ensures
        idx.indexes(*resume),
{
    let experience_lookup = experience_lookup(&resume.experiences);
    let project_lookup = project_lookup(&resume.projects);
    let skill_lookup = skill_lookup(&resume.skills);
    let skill_to_projects = projects_by_skill(&resume.projects);
    let project_to_experiences = experiences_by_project(&resume.experiences);
    let mut skill_to_experiences = experiences_by_skill(
        &resume.experiences,
        &resume.projects,
        &project_lookup,
    );
    skill_to_experiences.sort_values();
    ResumeIndex {
        skill_to_projects,
        skill_to_experiences,
        project_to_experiences,
        experience_lookup,
        project_lookup,
        skill_lookup,
    }
}

/// How many times `k` occurs in `s`.
pub open spec fn occurrences(s: Seq<Seq<char>>, k: Seq<char>) -> nat
    decreases s.len(),
{
    if s.len() == 0 {
        0
    } else {
        occurrences(s.drop_last(), k) + if s.last() == k {
            1nat
        } else {
            0nat
        }
    }
}

/// How many times the experiences list project id `k`, repeats included.
pub open spec fn reference_count(experiences: Seq<Experience>, k: Seq<char>) -> nat
    decreases experiences.len(),
{
    if experiences.len() == 0 {
        0
    } else {
        reference_count(experiences.drop_last(), k) + occurrences(experiences.last().listed(), k)
    }
}

/// How many pairs list `k`.
pub open spec fn pair_count(pairs: Pairs, k: Seq<char>) -> nat
    decreases pairs.len(),
{
    if pairs.len() == 0 {
        0
    } else {
        pair_count(pairs.drop_last(), k) + if pairs.last().0 == k {
            1nat
        } else {
            0nat
        }
    }
}

pub proof fn lemma_grouped_count(pairs: Pairs, k: Seq<char>)
    ensures
        grouped(pairs).contains_key(k) <==> pair_count(pairs, k) > 0,
        grouped(pairs).contains_key(k) ==> grouped(pairs)[k].len() == pair_count(pairs, k),
    decreases pairs.len(),
{
    if pairs.len() > 0 {
        lemma_grouped_count(pairs.drop_last(), k);
    }
}

pub proof fn lemma_pair_count_concat(a: Pairs, b: Pairs, k: Seq<char>)
    ensures
        pair_count(a + b, k) == pair_count(a, k) + pair_count(b, k),
    decreases b.len(),
{
    if b.len() == 0 {
        assert(a + b =~= a);
    } else {
        assert((a + b).drop_last() =~= a + b.drop_last());
        lemma_pair_count_concat(a, b.drop_last(), k);
    }
}

pub proof fn lemma_pair_count_listing(listed: Seq<Seq<char>>, owner: Seq<char>, k: Seq<char>)
    ensures
        pair_count(listing(listed, owner), k) == occurrences(listed, k),
    decreases listed.len(),
{
    if listed.len() > 0 {
        assert(listing(listed, owner).drop_last() =~= listing(listed.drop_last(), owner));
        lemma_pair_count_listing(listed.drop_last(), owner, k);
    }
}

proof fn lemma_experience_pair_count(experiences: Seq<Experience>, k: Seq<char>)
    ensures
        pair_count(experience_pairs(experiences), k) == reference_count(experiences, k),
    decreases experiences.len(),
{
    if experiences.len() > 0 {
        let rest = experiences.drop_last();
        let last = experiences.last();
        lemma_experience_pair_count(rest, k);
        lemma_pair_count_concat(experience_pairs(rest), listing(last.listed(), last.key()), k);
        lemma_pair_count_listing(last.listed(), last.key(), k);
    }
}

proof fn lemma_occurs(s: Seq<Seq<char>>, j: int)
    requires
        0 <= j < s.len(),
    ensures
        occurrences(s, s[j]) > 0,
    decreases s.len(),
{
    if j < s.len() - 1 {
        lemma_occurs(s.drop_last(), j);
    }
}

proof fn lemma_referenced(experiences: Seq<Experience>, e: int, j: int)
    requires
        0 <= e < experiences.len(),
        0 <= j < experiences[e].projects@.len(),
    ensures
        reference_count(experiences, experiences[e].projects@[j]@) > 0,
    decreases experiences.len(),
{
    if e < experiences.len() - 1 {
        lemma_referenced(experiences.drop_last(), e, j);
    } else {
        lemma_occurs(experiences[e].listed(), j);
    }
}

/// Every project id that an experience lists has an entry in
/// `project_to_experiences`, whose length is the number of times the
/// experiences list that id, repeats within one experience included.
pub proof fn lemma_project_reference_count(r: Resume, idx: ResumeIndex, e: int, j: int)
    requires
        idx.indexes(r),
        0 <= e < r.experiences@.len(),
        0 <= j < r.experiences@[e].projects@.len(),
    ensures
        idx.project_to_experiences@.contains_key(r.experiences@[e].projects@[j]@),
        idx.project_to_experiences@[r.experiences@[e].projects@[j]@].len() == reference_count(
            r.experiences@,
            r.experiences@[e].projects@[j]@,
        ),
{
    let k = r.experiences@[e].projects@[j]@;
    lemma_referenced(r.experiences@, e, j);
    lemma_experience_pair_count(r.experiences@, k);
    lemma_grouped_count(experience_pairs(r.experiences@), k);
}

/// The experiences of every skill in `skill_to_experiences` are in ascending
/// order with no id twice, however many projects lead to one experience.
pub proof fn lemma_skill_experiences_sorted(r: Resume, idx: ResumeIndex, s: Seq<char>)
    requires
        idx.indexes(r),
        idx.skill_to_experiences@.contains_key(s),
    ensures
        strictly_sorted(idx.skill_to_experiences@[s]),
        idx.skill_to_experiences@[s].no_duplicates(),
{
    lemma_strictly_sorted_no_duplicates(idx.skill_to_experiences@[s]);
}

/// Indexing one document twice gives the same indices, entry for entry and
/// in the same key order.
pub proof fn lemma_index_deterministic(r: Resume, a: ResumeIndex, b: ResumeIndex)
    requires
        a.indexes(r),
        b.indexes(r),
    ensures
        a.skill_to_projects@ == b.skill_to_projects@,
        a.skill_to_projects.keys() == b.skill_to_projects.keys(),
        a.skill_to_experiences@ == b.skill_to_experiences@,
        a.skill_to_experiences.keys() == b.skill_to_experiences.keys(),
        a.project_to_experiences@ == b.project_to_experiences@,
        a.project_to_experiences.keys() == b.project_to_experiences.keys(),
        a.experience_lookup@ == b.experience_lookup@,
        a.project_lookup@ == b.project_lookup@,
        a.skill_lookup@ == b.skill_lookup@,
{
    assert forall|k: Seq<char>| #[trigger] a.skill_to_experiences@.contains_key(k) implies a.skill_to_experiences@[k]
        == b.skill_to_experiences@[k] by {
        assert(b.skill_to_experiences@.contains_key(k));
        lemma_strictly_sorted_unique(a.skill_to_experiences@[k], b.skill_to_experiences@[k]);
    }
    assert(a.skill_to_experiences@ =~= b.skill_to_experiences@);
}

} // verus!
