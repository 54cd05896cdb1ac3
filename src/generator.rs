//! The answers to every query over a document and its index.
use crate::id_map::IdMap;
use crate::index::{
    build_index, grouped, lemma_positions, positions, project_ids, project_pairs, reach_pairs,
    resolved, resolves, experience_ids, skill_ids, ResumeIndex,
};
use crate::model::{views, Experience, Project, Resume, Skill};
use crate::text::{lemma_ordered, ordered, same_id, sort_unique};
use vstd::prelude::*;

verus! {

/// The positions that `at` gives the ids, in order; ids it does not know are
/// dropped.
pub open spec fn found(ids: Seq<Seq<char>>, at: Map<Seq<char>, usize>) -> Seq<int>
    decreases ids.len(),
{
    if ids.len() == 0 {
        seq![]
    } else {
        found(ids.drop_last(), at) + if at.contains_key(ids.last()) {
            seq![at[ids.last()] as int]
        } else {
            seq![]
        }
    }
}

/// The items at the given positions.
pub open spec fn picked<T>(items: Seq<T>, at: Seq<int>) -> Seq<T> {
    at.map_values(|j: int| items[j])
}

/// The skills of the project named `id`, as listed, those without an entity
/// dropped; none if no project has that id.
pub open spec fn project_skills(r: Resume, id: Seq<char>) -> Seq<Skill> {
    if resolves(r.projects@, id) {
        picked(
            r.skills@,
            found(resolved(r.projects@, id).listed(), positions(skill_ids(r.skills@))),
        )
    } else {
        seq![]
    }
}

/// The projects that list skill `id`, in document order.
pub open spec fn skill_projects(r: Resume, id: Seq<char>) -> Seq<Project> {
    let by_skill = grouped(project_pairs(r.projects@));
    let ids = if by_skill.contains_key(id) {
        by_skill[id]
    } else {
        seq![]
    };
    picked(r.projects@, found(ids, positions(project_ids(r.projects@))))
}

/// The experiences that reach skill `id` through a project, ascending by id.
pub open spec fn skill_experiences(r: Resume, id: Seq<char>) -> Seq<Experience> {
    let by_skill = grouped(reach_pairs(r.experiences@, r.projects@));
    let ids = if by_skill.contains_key(id) {
        ordered(by_skill[id].to_set())
    } else {
        seq![]
    };
    picked(r.experiences@, found(ids, positions(experience_ids(r.experiences@))))
}

/// The ids of the skills that the projects named `a` and `b` both list,
/// ascending; none if either id names no project.
pub open spec fn shared_ids(r: Resume, a: Seq<char>, b: Seq<char>) -> Seq<Seq<char>> {
    if resolves(r.projects@, a) && resolves(r.projects@, b) {
        ordered(
            resolved(r.projects@, a).listed().to_set().intersect(
                resolved(r.projects@, b).listed().to_set(),
            ),
        )
    } else {
        seq![]
    }
}

/// The skills that the projects named `a` and `b` share.
pub open spec fn shared_skill_list(r: Resume, a: Seq<char>, b: Seq<char>) -> Seq<Skill> {
    picked(r.skills@, found(shared_ids(r, a, b), positions(skill_ids(r.skills@))))
}

/// The items that `lookup` finds for `ids`, in order; ids it does not know
/// are dropped.
fn resolve_all<'a, T>(ids: &Vec<String>, lookup: &IdMap<usize>, items: &'a Vec<T>) -> (r: Vec<
    &'a T,
>)
    requires
        lookup.wf(),
        forall|k: Seq<char>| #[trigger] lookup@.contains_key(k) ==> lookup@[k] < items@.len(),
    ensures
        r@.len() == picked(items@, found(views(ids@), lookup@)).len(),
        forall|i: int|
            0 <= i < r@.len() ==> *#[trigger] r@[i] == picked(
                items@,
                found(views(ids@), lookup@),
            )[i],
{
    let mut r: Vec<&'a T> = Vec::new();
    let mut i: usize = 0;
    while i < ids.len()
        invariant
            i <= ids.len(),
            lookup.wf(),
            forall|k: Seq<char>| #[trigger] lookup@.contains_key(k) ==> lookup@[k] < items@.len(),
            r@.len() == picked(items@, found(views(ids@).take(i as int), lookup@)).len(),
            forall|j: int|
                0 <= j < r@.len() ==> *#[trigger] r@[j] == picked(
                    items@,
                    found(views(ids@).take(i as int), lookup@),
                )[j],
        decreases ids.len() - i,
    {
        let ghost before = found(views(ids@).take(i as int), lookup@);
        assert(views(ids@).take(i + 1).drop_last() =~= views(ids@).take(i as int));
        assert(views(ids@).take(i + 1).last() == ids@[i as int]@);
        match lookup.get(ids[i].as_str()) {
            Some(at) => {
                r.push(&items[*at]);
                assert(found(views(ids@).take(i + 1), lookup@) =~= before.push(*at as int));
            },
            None => {
                assert(found(views(ids@).take(i + 1), lookup@) =~= before);
            },
        }
        i = i + 1;
    }
    assert(views(ids@).take(i as int) =~= views(ids@));
    r
}

/// Whether `k` is among the ids.
fn lists(ids: &Vec<String>, k: &str) -> (r: bool)
    ensures
        r == views(ids@).contains(k@),
{
    let mut i: usize = 0;
    while i < ids.len()
        invariant
            i <= ids.len(),
            forall|j: int| 0 <= j < i ==> views(ids@)[j] != k@,
        decreases ids.len() - i,
    {
        if same_id(ids[i].as_str(), k) {
            assert(views(ids@)[i as int] == k@);
            return true;
        }
        i = i + 1;
    }
    false
}

/// A document, its index, and the directory its answers are written to.
#[derive(Debug)]
pub struct StaticGenerator {
    pub resume: Resume,
    pub index: ResumeIndex,
    pub output_dir: String,
}

impl StaticGenerator {
    /// The index is the document's.
    pub open spec fn wf(&self) -> bool {
        self.index.indexes(self.resume)
    }

    /// Indexes `resume`.
    pub fn new(resume: Resume, output_dir: String) -> (g: Self)
        ensures
            g.wf(),
            g.resume == resume,
            g.output_dir == output_dir,
    {
        let index = build_index(&resume);
        StaticGenerator { resume, index, output_dir }
    }

    proof fn lemma_lookups(&self)
        requires
            self.wf(),
        ensures
            forall|k: Seq<char>| #[trigger]
                self.index.skill_lookup@.contains_key(k) ==> self.index.skill_lookup@[k]
                    < self.resume.skills@.len(),
            forall|k: Seq<char>| #[trigger]
                self.index.project_lookup@.contains_key(k) ==> self.index.project_lookup@[k]
                    < self.resume.projects@.len(),
            forall|k: Seq<char>| #[trigger]
                self.index.experience_lookup@.contains_key(k) ==> self.index.experience_lookup@[k]
                    < self.resume.experiences@.len(),
    {
        assert forall|k: Seq<char>| #[trigger]
            self.index.skill_lookup@.contains_key(k) implies self.index.skill_lookup@[k]
            < self.resume.skills@.len() by {
            assert(self.resume.skills.len() == self.resume.skills@.len());
            lemma_positions(skill_ids(self.resume.skills@), k);
        }
        assert forall|k: Seq<char>| #[trigger]
            self.index.project_lookup@.contains_key(k) implies self.index.project_lookup@[k]
            < self.resume.projects@.len() by {
            assert(self.resume.projects.len() == self.resume.projects@.len());
            lemma_positions(project_ids(self.resume.projects@), k);
        }
        assert forall|k: Seq<char>| #[trigger]
            self.index.experience_lookup@.contains_key(k) implies self.index.experience_lookup@[k]
            < self.resume.experiences@.len() by {
            assert(self.resume.experiences.len() == self.resume.experiences@.len());
            lemma_positions(experience_ids(self.resume.experiences@), k);
        }
    }

    /// The project named `id`: the last one with that id.
    pub fn project_details(&self, id: &str) -> (r: Option<&Project>)
        requires
            self.wf(),
        ensures
            r is Some <==> resolves(self.resume.projects@, id@),
            r matches Some(p) ==> *p == resolved(self.resume.projects@, id@),
    {
        proof {
            self.lemma_lookups();
        }
        match self.index.project_lookup.get(id) {
            Some(at) => Some(&self.resume.projects[*at]),
            None => None,
        }
    }

    /// The experience named `id`: the last one with that id.
    pub fn experience_details(&self, id: &str) -> (r: Option<&Experience>)
        requires
            self.wf(),
        ensures
            r is Some <==> positions(experience_ids(self.resume.experiences@)).contains_key(id@),
            r matches Some(e) ==> *e == self.resume.experiences@[positions(
                experience_ids(self.resume.experiences@),
            )[id@] as int],
    {
        proof {
            self.lemma_lookups();
        }
        match self.index.experience_lookup.get(id) {
            Some(at) => Some(&self.resume.experiences[*at]),
            None => None,
        }
    }

    /// The skills of the project named `id`, in its list order, ids without a
    /// skill dropped.
    pub fn skills_for_project(&self, id: &str) -> (r: Vec<&Skill>)
        requires
            self.wf(),
        ensures
            r@.len() == project_skills(self.resume, id@).len(),
            forall|i: int|
                0 <= i < r@.len() ==> *#[trigger] r@[i] == project_skills(self.resume, id@)[i],
    {
        proof {
            self.lemma_lookups();
        }
        match self.project_details(id) {
            Some(project) => resolve_all(&project.skills, &self.index.skill_lookup, &self.resume.skills),
            None => Vec::new(),
        }
    }

    /// The projects that list skill `id`, in document order.
    pub fn projects_using_skill(&self, id: &str) -> (r: Vec<&Project>)
        requires
            self.wf(),
        ensures
            r@.len() == skill_projects(self.resume, id@).len(),
            forall|i: int|
                0 <= i < r@.len() ==> *#[trigger] r@[i] == skill_projects(self.resume, id@)[i],
    {
        proof {
            self.lemma_lookups();
        }
        match self.index.skill_to_projects.get(id) {
            Some(ids) => {
                assert(views(ids@) =~= ids.deep_view());
                resolve_all(ids, &self.index.project_lookup, &self.resume.projects)
            },
            None => {
                assert(found(seq![], positions(project_ids(self.resume.projects@))) =~= seq![]);
                Vec::new()
            },
        }
    }

    /// The experiences that reach skill `id` through a project, ascending by
    /// id, each once.
    pub fn experiences_using_skill(&self, id: &str) -> (r: Vec<&Experience>)
        requires
            self.wf(),
        ensures
            r@.len() == skill_experiences(self.resume, id@).len(),
            forall|i: int|
                0 <= i < r@.len() ==> *#[trigger] r@[i] == skill_experiences(self.resume, id@)[i],
    {
        proof {
            self.lemma_lookups();
        }
        match self.index.skill_to_experiences.get(id) {
            Some(ids) => {
                assert(views(ids@) =~= ids.deep_view());
                proof {
                    lemma_ordered(views(ids@));
                }
                resolve_all(ids, &self.index.experience_lookup, &self.resume.experiences)
            },
            None => {
                assert(found(seq![], positions(experience_ids(self.resume.experiences@))) =~= seq![]);
                Vec::new()
            },
        }
    }

    /// The skills that the projects named `a` and `b` both list, ascending by
    /// id, each once; the answer does not depend on the order of `a` and `b`.
    pub fn shared_skills(&self, a: &str, b: &str) -> (r: Vec<&Skill>)
        requires
            self.wf(),
        ensures
            r@.len() == shared_skill_list(self.resume, a@, b@).len(),
            forall|i: int|
                0 <= i < r@.len() ==> *#[trigger] r@[i] == shared_skill_list(self.resume, a@, b@)[i],
    {
        proof {
            self.lemma_lookups();
        }
        let pa = self.project_details(a);
        let pb = self.project_details(b);
        match (pa, pb) {
            (Some(pa), Some(pb)) => {
                let mut common: Vec<String> = Vec::new();
                let mut i: usize = 0;
                while i < pa.skills.len()
                    invariant
                        i <= pa.skills.len(),
                        views(common@).to_set() == views(pa.skills@).take(i as int).to_set().intersect(
                            views(pb.skills@).to_set(),
                        ),
                    decreases pa.skills.len() - i,
                {
                    let ghost before = common@;
                    assert(views(pa.skills@).take(i + 1) =~= views(pa.skills@).take(i as int).push(
                        pa.skills@[i as int]@,
                    ));
                    proof {
                        views(pa.skills@).take(i as int).lemma_push_to_set_commute(pa.skills@[i as int]@);
                    }
                    if lists(&pb.skills, pa.skills[i].as_str()) {
                        common.push(pa.skills[i].clone());
                        assert(views(common@) =~= views(before).push(pa.skills@[i as int]@));
                        proof {
                            views(before).lemma_push_to_set_commute(pa.skills@[i as int]@);
                        }
                    }
                    assert(views(common@).to_set() =~= views(pa.skills@).take(i + 1).to_set().intersect(
                        views(pb.skills@).to_set(),
                    ));
                    i = i + 1;
                }
                assert(views(pa.skills@).take(i as int) =~= views(pa.skills@));
                let ids = sort_unique(&common);
                resolve_all(&ids, &self.index.skill_lookup, &self.resume.skills)
            },
            _ => {
                assert(found(seq![], positions(skill_ids(self.resume.skills@))) =~= seq![]);
                Vec::new()
            },
        }
    }
}

/// The skills shared by two projects are the same whichever is named first.
pub proof fn lemma_shared_skills_symmetric(r: Resume, a: Seq<char>, b: Seq<char>)
    ensures
        shared_skill_list(r, a, b) == shared_skill_list(r, b, a),
{
    if resolves(r.projects@, a) && resolves(r.projects@, b) {
        let sa = resolved(r.projects@, a).listed().to_set();
        let sb = resolved(r.projects@, b).listed().to_set();
        assert(sa.intersect(sb) =~= sb.intersect(sa));
    }
}

} // verus!
