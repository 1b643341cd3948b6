//! The menu model: one restaurant, its days, and each day's lunch and
//! dinner.

use vstd::prelude::*;

use crate::text::string_views;

verus! {

/// One meal as the restaurant publishes it.
#[derive(Debug)]
pub struct Meal {
    pub opcoes: Vec<String>,
    pub guarnicao: String,
    pub guarnicao_pvt: String,
    pub acompanhamento: String,
    pub salada: String,
    pub sobremesa: String,
    pub outros: Vec<String>,
    pub calories: u32,
    /// `"A"` for lunch, anything else for dinner.
    pub meal_type: String,
}

/// The menu of one weekday.
#[derive(Debug)]
pub struct DayMenu {
    pub date: String,
    /// 1 = Monday, ..., 7 = Sunday.
    pub weekday: u32,
    pub almoco: Option<Meal>,
    pub jantar: Option<Meal>,
}

/// The cached week of one restaurant.
#[derive(Debug)]
pub struct MenuData {
    pub restaurant_name: String,
    pub days: Vec<DayMenu>,
}

/// The mathematical value of a `Meal`.
pub struct MealView {
    pub opcoes: Seq<Seq<char>>,
    pub guarnicao: Seq<char>,
    pub guarnicao_pvt: Seq<char>,
    pub acompanhamento: Seq<char>,
    pub salada: Seq<char>,
    pub sobremesa: Seq<char>,
    pub outros: Seq<Seq<char>>,
    pub calories: u32,
    pub meal_type: Seq<char>,
}

/// The mathematical value of a `DayMenu`.
pub struct DayMenuView {
    pub date: Seq<char>,
    pub weekday: u32,
    pub almoco: Option<MealView>,
    pub jantar: Option<MealView>,
}

/// The mathematical value of a `MenuData`.
pub struct MenuDataView {
    pub restaurant_name: Seq<char>,
    pub days: Seq<DayMenuView>,
}

impl View for Meal {
    type V = MealView;

    open spec fn view(&self) -> MealView {
        MealView {
            opcoes: string_views(self.opcoes@),
            guarnicao: self.guarnicao@,
            guarnicao_pvt: self.guarnicao_pvt@,
            acompanhamento: self.acompanhamento@,
            salada: self.salada@,
            sobremesa: self.sobremesa@,
            outros: string_views(self.outros@),
            calories: self.calories,
            meal_type: self.meal_type@,
        }
    }
}

/// The value of an optional meal.
pub open spec fn opt_meal_view(m: Option<Meal>) -> Option<MealView> {
    match m {
        Some(meal) => Some(meal@),
        None => None,
    }
}

impl View for DayMenu {
    type V = DayMenuView;

    open spec fn view(&self) -> DayMenuView {
        DayMenuView {
            date: self.date@,
            weekday: self.weekday,
            almoco: opt_meal_view(self.almoco),
            jantar: opt_meal_view(self.jantar),
        }
    }
}

/// The values of a sequence of day menus.
pub open spec fn day_views(days: Seq<DayMenu>) -> Seq<DayMenuView> {
    Seq::new(days.len(), |i: int| days[i]@)
}

impl View for MenuData {
    type V = MenuDataView;

    open spec fn view(&self) -> MenuDataView {
        MenuDataView { restaurant_name: self.restaurant_name@, days: day_views(self.days@) }
    }
}

/// A copy of a list of strings.
pub fn clone_strings(v: &Vec<String>) -> (r: Vec<String>)
    ensures
        string_views(r@) == string_views(v@),
{
    let mut r: Vec<String> = Vec::new();
    let mut i: usize = 0;
    while i < v.len()
        invariant
            i <= v@.len(),
            string_views(r@) == string_views(v@).take(i as int),
        decreases v@.len() - i,
    {
        let ghost old_r = r@;
        r.push(v[i].clone());
        assert(string_views(r@) =~= string_views(old_r).push(v@[i as int]@));
        assert(string_views(v@).take(i + 1) =~= string_views(v@).take(i as int).push(
            v@[i as int]@,
        ));
        i += 1;
    }
    assert(string_views(v@).take(v@.len() as int) =~= string_views(v@));
    r
}

impl Meal {
    /// A copy of this meal.
    pub fn duplicate(&self) -> (r: Meal)
        ensures
            r@ == self@,
    {
        Meal {
            opcoes: clone_strings(&self.opcoes),
            guarnicao: self.guarnicao.clone(),
            guarnicao_pvt: self.guarnicao_pvt.clone(),
            acompanhamento: self.acompanhamento.clone(),
            salada: self.salada.clone(),
            sobremesa: self.sobremesa.clone(),
            outros: clone_strings(&self.outros),
            calories: self.calories,
            meal_type: self.meal_type.clone(),
        }
    }
}

/// A copy of an optional meal.
fn duplicate_opt_meal(m: &Option<Meal>) -> (r: Option<Meal>)
    ensures
        opt_meal_view(r) == opt_meal_view(*m),
{
    match m {
        Some(meal) => Some(meal.duplicate()),
        None => None,
    }
}

impl DayMenu {
    /// A copy of this day's menu.
    pub fn duplicate(&self) -> (r: DayMenu)
        ensures
            r@ == self@,
    {
        DayMenu {
            date: self.date.clone(),
            weekday: self.weekday,
            almoco: duplicate_opt_meal(&self.almoco),
            jantar: duplicate_opt_meal(&self.jantar),
        }
    }
}

/// The position of the first day of `days` whose weekday is `weekday`.
pub open spec fn day_position(days: Seq<DayMenuView>, weekday: int) -> Option<nat>
    decreases days.len(),
{
    if days.len() == 0 {
        None
    } else {
        match day_position(days.drop_last(), weekday) {
            Some(j) => Some(j),
            None => if days.last().weekday == weekday {
                Some((days.len() - 1) as nat)
            } else {
                None
            },
        }
    }
}

/// `day_position` names the first matching day, and is `None` only when
/// no day matches.
pub proof fn lemma_day_position(days: Seq<DayMenuView>, weekday: int)
    ensures
        day_position(days, weekday) matches Some(j) ==> j < days.len() && days[j as int].weekday
            == weekday && forall|k: int| 0 <= k < j ==> days[k].weekday != weekday,
        day_position(days, weekday) is None ==> forall|k: int|
            0 <= k < days.len() ==> days[k].weekday != weekday,
    decreases days.len(),
{
    if days.len() > 0 {
        lemma_day_position(days.drop_last(), weekday);
        assert(forall|k: int| 0 <= k < days.len() - 1 ==> days.drop_last()[k] == days[k]);
    }
}

/// The position of the first day in `days` with the given weekday.
pub fn find_day_index(days: &Vec<DayMenu>, weekday: u32) -> (r: Option<usize>)
    ensures
        match r {
            Some(j) => day_position(day_views(days@), weekday as int) == Some(j as nat),
            None => day_position(day_views(days@), weekday as int) is None,
        },
        r matches Some(j) ==> j < days@.len(),
{
    let mut i: usize = 0;
    while i < days.len()
        invariant
            i <= days@.len(),
            day_position(day_views(days@).take(i as int), weekday as int) is None,
        decreases days@.len() - i,
    {
        let ghost pre = day_views(days@).take(i as int);
        assert(day_views(days@).take(i + 1).drop_last() == pre);
        if days[i].weekday == weekday {
            proof {
                lemma_prefix_position(day_views(days@), weekday as int, (i + 1) as int);
            }
            return Some(i);
        }
        i += 1;
    }
    assert(day_views(days@).take(days@.len() as int) == day_views(days@));
    None
}

/// Once a prefix holds the first matching day, the whole sequence has it
/// at the same place.
proof fn lemma_prefix_position(days: Seq<DayMenuView>, weekday: int, n: int)
    requires
        0 <= n <= days.len(),
        day_position(days.take(n), weekday) is Some,
    ensures
        day_position(days, weekday) == day_position(days.take(n), weekday),
    decreases days.len() - n,
{
    if n < days.len() {
        assert(days.take(n + 1).drop_last() == days.take(n));
        lemma_prefix_position(days, weekday, n + 1);
    } else {
        assert(days.take(n) == days);
    }
}

impl MenuData {
    /// The menu shown before anything was fetched: a generic restaurant
    /// name and no days.
    pub fn empty() -> (r: MenuData)
        ensures
            r@.restaurant_name == "Restaurante USP"@,
            r@.days.len() == 0,
    {
        MenuData { restaurant_name: String::from_str("Restaurante USP"), days: Vec::new() }
    }

    /// A copy of the first day whose weekday number is `weekday`, if any.
    pub fn get_day(&self, weekday: usize) -> (r: Option<DayMenu>)
        ensures
            match day_position(self@.days, weekday as int) {
                Some(j) => r matches Some(d) && d@ == self@.days[j as int],
                None => r is None,
            },
    {
        if weekday > 0xFFFF_FFFF {
            proof {
                lemma_day_position(self@.days, weekday as int);
                assert forall|k: int| 0 <= k < self@.days.len() implies self@.days[k].weekday
                    != weekday by {}
                lemma_no_day_position(self@.days, weekday as int);
            }
            return None;
        }
        match find_day_index(&self.days, weekday as u32) {
            Some(j) => Some(self.days[j].duplicate()),
            None => None,
        }
    }
}

/// Without a matching day there is no position.
proof fn lemma_no_day_position(days: Seq<DayMenuView>, weekday: int)
    requires
        forall|k: int| 0 <= k < days.len() ==> days[k].weekday != weekday,
    ensures
        day_position(days, weekday) is None,
    decreases days.len(),
{
    if days.len() > 0 {
        lemma_no_day_position(days.drop_last(), weekday);
    }
}

} // verus!
