//! The themes that can be chosen by name, in the order a presenter cycles
//! through them.

use super::{is_paper_white, Theme};
use crate::parser::text;
use vstd::prelude::*;

verus! {

/// The names of the registered themes, in cycling order.
pub open spec fn theme_names() -> Seq<Seq<char>> {
    seq!["paper-white"@]
}

/// The names of the registered themes, in cycling order.
pub fn names() -> (r: Vec<&'static str>)
    ensures
        r@.len() == theme_names().len(),
        forall|k: int| 0 <= k < r@.len() ==> (#[trigger] r@[k])@ == theme_names()[k],
{
    vec!["paper-white"]
}

/// The position of the first name at or after `i` in `ns` that is `name`.
pub open spec fn index_from(ns: Seq<Seq<char>>, name: Seq<char>, i: int) -> Option<int>
    decreases ns.len() - i,
{
    if i < 0 || i >= ns.len() {
        None
    } else if ns[i] == name {
        Some(i)
    } else {
        index_from(ns, name, i + 1)
    }
}

proof fn lemma_index_from(ns: Seq<Seq<char>>, name: Seq<char>, i: int)
    ensures
        index_from(ns, name, i) matches Some(k) ==> 0 <= k < ns.len() && ns[k] == name,
    decreases ns.len() - i,
{
    if 0 <= i < ns.len() && ns[i] != name {
        lemma_index_from(ns, name, i + 1);
    }
}

proof fn lemma_index_from_finds(ns: Seq<Seq<char>>, name: Seq<char>, i: int, j: int)
    requires
        0 <= i <= j < ns.len(),
        ns[j] == name,
    ensures
        index_from(ns, name, i) is Some,
    decreases j - i,
{
    if ns[i] != name {
        lemma_index_from_finds(ns, name, i + 1, j);
    }
}

/// Cycling never leaves the registry: whatever name it starts from, the
/// theme it moves to is found again by its name.
pub proof fn lemma_cycle_stays_registered(current: Seq<char>)
    ensures
        theme_index(
            theme_names()[(match theme_index(current) {
                Some(k) => k,
                None => 0,
            } + 1) % theme_names().len() as int],
        ) is Some,
{
    lemma_index_from(theme_names(), current, 0);
    let k = match theme_index(current) {
        Some(k) => k,
        None => 0,
    };
    let j = (k + 1) % theme_names().len() as int;
    lemma_index_from_finds(theme_names(), theme_names()[j], 0, j);
}

/// The position of the first registered theme named `name`, if any.
pub open spec fn theme_index(name: Seq<char>) -> Option<int> {
    index_from(theme_names(), name, 0)
}

/// The registered theme at position `k`: paper-white at position 0.
fn theme_at(k: usize) -> (t: Theme)
    requires
        k < theme_names().len(),
    ensures
        t.name@ == theme_names()[k as int],
        k == 0 ==> is_paper_white(t),
{
    Theme::paper_white()
}

/// The position of the registered theme named `name`, if any.
fn find_theme(name: &str) -> (r: Option<usize>)
    ensures
        match r {
            Some(k) => theme_index(name@) == Some(k as int) && k < theme_names().len(),
            None => theme_index(name@) is None,
        },
{
    let ns = names();
    let mut k: usize = 0;
    while k < ns.len()
        invariant
            k <= ns@.len(),
            ns@.len() == theme_names().len(),
            forall|j: int| 0 <= j < ns@.len() ==> (#[trigger] ns@[j])@ == theme_names()[j],
            theme_index(name@) == index_from(theme_names(), name@, k as int),
        decreases ns@.len() - k,
    {
        if text::str_eq(ns[k], name) {
            return Some(k);
        }
        k = k + 1;
    }
    None
}

/// The theme registered as `name`, if any.
pub fn get(name: &str) -> (r: Option<Theme>)
    ensures
        r is Some <==> theme_index(name@) is Some,
        r matches Some(t) ==> t.name@ == name@,
        theme_index(name@) == Some(0int) ==> (r matches Some(t) && is_paper_white(t)),
{
    proof {
        lemma_index_from(theme_names(), name@, 0);
    }
    match find_theme(name) {
        Some(k) => Some(theme_at(k)),
        None => None,
    }
}

/// The theme after `current` in cycling order; an unknown name cycles as the
/// first theme does.
pub fn cycle(current: &str) -> (r: &'static str)
    ensures
        r@ == theme_names()[(match theme_index(current@) {
            Some(k) => k,
            None => 0,
        } + 1) % theme_names().len() as int],
{
    let ns = names();
    let idx = match find_theme(current) {
        Some(k) => k,
        None => 0,
    };
    ns[(idx + 1) % ns.len()]
}

} // verus!
