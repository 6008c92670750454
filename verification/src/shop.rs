//! Shops of the catalog.

use vstd::prelude::*;
use crate::entities::Timestamp;
use crate::model::Key;

verus! {

pub struct Shop {
    pub id: Key,
    pub name: String,
    pub latest_update: Timestamp,
}

impl Shop {
    pub fn new(id: Key, name: String, latest_update: Timestamp) -> (s: Shop)
        ensures
            s.id == id,
            s.name == name,
            s.latest_update == latest_update,
    {
        Shop { id, name, latest_update }
    }

    pub fn id(&self) -> (r: Key)
        ensures
            r == self.id,
    {
        self.id
    }
}

} // verus!
