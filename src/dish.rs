use vstd::prelude::*;

verus! {

/// The course a dish belongs to.
#[derive(PartialEq, Eq, Structural, Clone, Copy, Debug, Hash)]
pub enum Category {
    Appetizer,
    Entree,
    Dessert,
}

/// A named food item together with its course.
#[derive(Debug)]
pub struct Dish {
    pub name: String,
    pub category: Category,
}

impl Dish {
    /// Builds a dish; the name is taken as given, without validation.
    pub fn new(name: String, category: Category) -> (r: Dish)
        ensures
            r.name@ == name@,
            r.category == category,
    {
        Dish { name, category }
    }
}

impl Clone for Dish {
    fn clone(&self) -> (r: Dish)
        ensures
            r == *self,
    {
        Dish { name: self.name.clone(), category: self.category }
    }
}

impl PartialEq for Dish {
    fn eq(&self, other: &Dish) -> (r: bool)
        ensures
            r == (self.name@ == other.name@ && self.category == other.category),
    {
        self.name == other.name && self.category == other.category
    }
}

impl vstd::std_specs::cmp::PartialEqSpecImpl for Dish {
    open spec fn obeys_eq_spec() -> bool {
        true
    }

    open spec fn eq_spec(&self, other: &Dish) -> bool {
        self.name@ == other.name@ && self.category == other.category
    }
}

impl Eq for Dish {
}

} // verus!
