//! The list of projects that the user wants to check.

use vstd::prelude::*;
use crate::projects::str_seq;

verus! {

/// One wanted project: a display name and the repository identifier.
pub struct ProjectData {
    pub name: String,
    pub id: String,
}

/// The wanted projects, in the order the user listed them.
pub struct WantedProjects {
    pub mods: Vec<ProjectData>,
}

impl WantedProjects {
    /// The identifiers of the wanted projects, in order.
    pub fn ids(&self) -> (r: Vec<String>)
        ensures
            str_seq(r@) == self.mods@.map_values(|p: ProjectData| p.id@),
    {
        let mut ids: Vec<String> = Vec::new();
        let mut i: usize = 0;
        while i < self.mods.len()
            invariant
                i <= self.mods@.len(),
                str_seq(ids@) == self.mods@.take(i as int).map_values(|p: ProjectData| p.id@),
            decreases self.mods@.len() - i,
        {
            let ghost before = ids@;
            ids.push(self.mods[i].id.clone());
            assert(str_seq(ids@) =~= str_seq(before).push(self.mods@[i as int].id@));
            assert(self.mods@.take(i as int + 1).map_values(|p: ProjectData| p.id@)
                =~= self.mods@.take(i as int).map_values(|p: ProjectData| p.id@).push(
                self.mods@[i as int].id@,
            ));
            i = i + 1;
        }
        assert(self.mods@.take(self.mods@.len() as int) =~= self.mods@);
        ids
    }
}

} // verus!
