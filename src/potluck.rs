use vstd::prelude::*;

use crate::dish::{Category, Dish};

verus! {

/// What a potluck holds: its date label and its dishes in the order they were added.
pub struct PotluckView {
    pub date: Seq<char>,
    pub dishes: Seq<Dish>,
}

/// An event with a date label and an append-only list of dishes.
pub struct Potluck {
    date: String,
    dishes: Vec<Dish>,
}

/// The dishes of `dishes` whose course is `c`, in their original order.
pub open spec fn in_category(dishes: Seq<Dish>, c: Category) -> Seq<Dish> {
    dishes.filter(|d: Dish| d.category == c)
}

/// The names of `dishes`, in order.
pub open spec fn names_of(dishes: Seq<Dish>) -> Seq<Seq<char>> {
    dishes.map_values(|d: Dish| d.name@)
}

/// The text of each string of `names`, in order.
pub open spec fn texts_of(names: Seq<String>) -> Seq<Seq<char>> {
    names.map_values(|s: String| s@)
}

/// `groups` is a menu of `dishes`: one group per course that has dishes, none
/// for a course without any, each listing the names of that course's dishes
/// in the order they were added.
pub open spec fn is_menu_of(groups: Seq<(Category, Vec<String>)>, dishes: Seq<Dish>) -> bool {
    &&& forall|i: int|
        0 <= i < groups.len() ==> #[trigger] texts_of(groups[i].1@) == names_of(
            in_category(dishes, groups[i].0),
        ) && groups[i].1@.len() > 0
    &&& forall|i: int, j: int| 0 <= i < j < groups.len() ==> groups[i].0 != groups[j].0
    &&& forall|c: Category|
        #[trigger] in_category(dishes, c).len() > 0 ==> exists|i: int|
            0 <= i < groups.len() && groups[i].0 == c
}

/// Taking one more dish of `dishes` into account extends the dishes of course
/// `c` by that dish exactly when it is of course `c`.
proof fn lemma_in_category_take(dishes: Seq<Dish>, i: int, c: Category)
    requires
        0 <= i < dishes.len(),
    ensures
        in_category(dishes.take(i + 1), c) == if dishes[i].category == c {
            in_category(dishes.take(i), c).push(dishes[i])
        } else {
            in_category(dishes.take(i), c)
        },
{
    reveal(Seq::filter);
    assert(dishes.take(i + 1).drop_last() =~= dishes.take(i));
    assert(dishes.take(i + 1).last() == dishes[i]);
}

/// A course that no dish has is left with no dishes.
proof fn lemma_in_category_none(dishes: Seq<Dish>, c: Category)
    requires
        forall|i: int| 0 <= i < dishes.len() ==> dishes[i].category != c,
    ensures
        in_category(dishes, c).len() == 0,
    decreases dishes.len(),
{
    reveal(Seq::filter);
    if dishes.len() > 0 {
        assert(dishes.last().category != c);
        assert forall|i: int| 0 <= i < dishes.drop_last().len() implies dishes.drop_last()[i].category
            != c by {
            assert(dishes.drop_last()[i] == dishes[i]);
        }
        lemma_in_category_none(dishes.drop_last(), c);
    }
}

/// Appending a name to a list of names appends its text to their texts.
proof fn lemma_texts_push(names: Seq<String>, s: String)
    ensures
        texts_of(names.push(s)) == texts_of(names).push(s@),
{
    assert(texts_of(names.push(s)) =~= texts_of(names).push(s@));
}

/// Appending a dish to a list of dishes appends its name to their names.
proof fn lemma_names_push(dishes: Seq<Dish>, d: Dish)
    ensures
        names_of(dishes.push(d)) == names_of(dishes).push(d.name@),
{
    assert(names_of(dishes.push(d)) =~= names_of(dishes).push(d.name@));
}

/// Structure of one course's names while the dishes are scanned in order.
proof fn lemma_course_step(dishes: Seq<Dish>, i: int, c: Category, names: Seq<String>)
    requires
        0 <= i < dishes.len(),
        texts_of(names) == names_of(in_category(dishes.take(i), c)),
    ensures
        dishes[i].category == c ==> texts_of(names.push(dishes[i].name)) == names_of(
            in_category(dishes.take(i + 1), c),
        ),
        dishes[i].category != c ==> texts_of(names) == names_of(
            in_category(dishes.take(i + 1), c),
        ),
{
    lemma_in_category_take(dishes, i, c);
    lemma_texts_push(names, dishes[i].name);
    lemma_names_push(in_category(dishes.take(i), c), dishes[i]);
}

/// The dishes of a fresh potluck after `add_dish` was called with each of
/// `added` in turn: `new` starts from no dishes and each call appends one.
pub open spec fn after_adds(added: Seq<Dish>) -> Seq<Dish>
    decreases added.len(),
{
    if added.len() == 0 {
        Seq::<Dish>::empty()
    } else {
        after_adds(added.drop_last()).push(added.last())
    }
}

/// Adding dishes one by one to a fresh potluck leaves exactly as many dishes
/// as there were calls, and the n-th dish is the one passed to the n-th call.
pub proof fn lemma_adds_keep_order(added: Seq<Dish>)
    ensures
        after_adds(added).len() == added.len(),
        forall|i: int| 0 <= i < added.len() ==> #[trigger] after_adds(added)[i] == added[i],
    decreases added.len(),
{
    if added.len() > 0 {
        lemma_adds_keep_order(added.drop_last());
        assert(after_adds(added) =~= added);
    }
}

/// The menu's groups together hold every dish exactly once: the dishes of
/// the three courses add up to all dishes.
pub proof fn lemma_menu_partitions(dishes: Seq<Dish>)
    ensures
        in_category(dishes, Category::Appetizer).len() + in_category(dishes, Category::Entree).len()
            + in_category(dishes, Category::Dessert).len() == dishes.len(),
    decreases dishes.len(),
{
    reveal(Seq::filter);
    if dishes.len() > 0 {
        lemma_menu_partitions(dishes.drop_last());
    }
}

impl View for Potluck {
    type V = PotluckView;

    closed spec fn view(&self) -> PotluckView {
        PotluckView { date: self.date@, dishes: self.dishes@ }
    }
}

impl Potluck {
    /// A potluck on `date` with no dishes yet.
    pub fn new(date: String) -> (r: Potluck)
        ensures
            r@.date == date@,
            r@.dishes == Seq::<Dish>::empty(),
    {
        Potluck { date, dishes: Vec::new() }
    }

    /// Appends `dish` after every dish already added.
    pub fn add_dish(&mut self, dish: Dish)
        ensures
            final(self)@.date == old(self)@.date,
            final(self)@.dishes == old(self)@.dishes.push(dish),
    {
        self.dishes.push(dish);
    }

    /// The dish names grouped by course. Each course that has dishes appears
    /// once, with the names of its dishes in the order they were added; a
    /// course without dishes does not appear.
    pub fn menu(&self) -> (r: Vec<(Category, Vec<String>)>)
        ensures
            is_menu_of(r@, self@.dishes),
    {
        let ghost dishes = self.dishes@;
        let mut appetizers: Vec<String> = Vec::new();
        let mut entrees: Vec<String> = Vec::new();
        let mut desserts: Vec<String> = Vec::new();
        let mut i: usize = 0;
        while i < self.dishes.len()
            invariant
                dishes == self.dishes@,
                0 <= i <= dishes.len(),
                texts_of(appetizers@) == names_of(in_category(dishes.take(i as int), Category::Appetizer)),
                texts_of(entrees@) == names_of(in_category(dishes.take(i as int), Category::Entree)),
                texts_of(desserts@) == names_of(in_category(dishes.take(i as int), Category::Dessert)),
            decreases dishes.len() - i,
        {
            let dish = &self.dishes[i];
            proof {
                lemma_course_step(dishes, i as int, Category::Appetizer, appetizers@);
                lemma_course_step(dishes, i as int, Category::Entree, entrees@);
                lemma_course_step(dishes, i as int, Category::Dessert, desserts@);
            }
            match dish.category {
                Category::Appetizer => appetizers.push(dish.name.clone()),
                Category::Entree => entrees.push(dish.name.clone()),
                Category::Dessert => desserts.push(dish.name.clone()),
            }
            i = i + 1;
        }
        assert(dishes.take(dishes.len() as int) =~= dishes);
        let ghost na = appetizers@.len();
        let ghost ne = entrees@.len();
        let mut menu: Vec<(Category, Vec<String>)> = Vec::new();
        if appetizers.len() > 0 {
            menu.push((Category::Appetizer, appetizers));
        }
        if entrees.len() > 0 {
            menu.push((Category::Entree, entrees));
        }
        if desserts.len() > 0 {
            menu.push((Category::Dessert, desserts));
        }
        assert forall|c: Category| #[trigger] in_category(dishes, c).len() > 0 implies exists|j: int|
            0 <= j < menu@.len() && menu@[j].0 == c by {
            assert(names_of(in_category(dishes, c)).len() == in_category(dishes, c).len());
            let a: int = if na > 0 { 1 } else { 0 };
            let e: int = if ne > 0 { 1 } else { 0 };
            match c {
                Category::Appetizer => assert(menu@[0].0 == c),
                Category::Entree => assert(menu@[a].0 == c),
                Category::Dessert => assert(menu@[a + e].0 == c),
            }
        }
        menu
    }

    /// Every dish of course `category`, in the order they were added; empty
    /// when no dish is of that course. Consumes the potluck: clone it first to
    /// keep it.
    pub fn get_all_from_category(self, category: Category) -> (r: Vec<Dish>)
        ensures
            r@ == in_category(self@.dishes, category),
            (forall|i: int| 0 <= i < self@.dishes.len() ==> self@.dishes[i].category != category)
                ==> r@.len() == 0,
    {
        let ghost dishes = self.dishes@;
        let mut r: Vec<Dish> = Vec::new();
        let mut i: usize = 0;
        while i < self.dishes.len()
            invariant
                dishes == self.dishes@,
                0 <= i <= dishes.len(),
                r@ == in_category(dishes.take(i as int), category),
            decreases dishes.len() - i,
        {
            proof {
                lemma_in_category_take(dishes, i as int, category);
            }
            if self.dishes[i].category == category {
                r.push(self.dishes[i].clone());
            }
            i = i + 1;
        }
        assert(dishes.take(dishes.len() as int) =~= dishes);
        proof {
            assert(self@.dishes == dishes);
            if forall|i: int| 0 <= i < dishes.len() ==> dishes[i].category != category {
                lemma_in_category_none(dishes, category);
            }
        }
        r
    }

    /// The number of dishes of course `category` and the number of all
    /// dishes, or `None` for a potluck without dishes, where the share of a
    /// course is undefined.
    pub fn category_share(&self, category: Category) -> (r: Option<(usize, usize)>)
        ensures
            self@.dishes.len() == 0 ==> r is None,
            self@.dishes.len() > 0 ==> r == Some(
                (in_category(self@.dishes, category).len() as usize, self@.dishes.len() as usize),
            ),
    {
        let total = self.dishes.len();
        if total == 0 {
            return None;
        }
        let matching = self.clone().get_all_from_category(category).len();
        Some((matching, total))
    }

    /// The date label given at construction.
    pub fn date(&self) -> (r: &String)
        ensures
            r@ == self@.date,
    {
        &self.date
    }

    /// The dishes, in the order they were added.
    pub fn dishes(&self) -> (r: &Vec<Dish>)
        ensures
            r@ == self@.dishes,
    {
        &self.dishes
    }
}

impl Clone for Potluck {
    fn clone(&self) -> (r: Potluck)
        ensures
            r@ == self@,
    {
        let dishes = self.dishes.clone();
        assert(dishes@ =~= self.dishes@);
        Potluck { date: self.date.clone(), dishes }
    }
}

} // verus!
