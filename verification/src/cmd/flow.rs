//! When a command goes ahead.
//!
//! Nothing is removed without a yes: either the flag that gives it in
//! advance, or an answer to a question that was asked after the plan was
//! shown. The flag skips the question, never the plan.

use vstd::prelude::*;

verus! {

/// What a command does next.
#[derive(Debug, Clone, Copy, PartialEq, Eq, Structural)]
pub enum Step {
    /// Print what was found as JSON, and stop.
    Json,
    /// Say that there is nothing to do, and stop.
    Nothing,
    /// Show what was found and how to remove it, and stop.
    Show,
    /// Show the plan, ask, and remove on a yes.
    Ask,
    /// Show the plan, and remove.
    Remove,
}

/// After a clean is planned: JSON without a yes is the plan alone.
pub open spec fn clean_goes(found: bool, json: bool, yes: bool) -> Step {
    if !found {
        Step::Nothing
    } else if json && !yes {
        Step::Json
    } else if yes {
        Step::Remove
    } else {
        Step::Ask
    }
}

pub fn clean_step(found: bool, json: bool, yes: bool) -> (r: Step)
    ensures
        r == clean_goes(found, json, yes),
{
    if !found {
        Step::Nothing
    } else if json && !yes {
        Step::Json
    } else if yes {
        Step::Remove
    } else {
        Step::Ask
    }
}

/// After a search that can end in a removal: only where that was asked for.
/// JSON is a listing whatever the flags say.
pub open spec fn search_goes(found: bool, json: bool, removal_wanted: bool, yes: bool) -> Step {
    if json {
        Step::Json
    } else if !found {
        Step::Nothing
    } else if !removal_wanted {
        Step::Show
    } else if yes {
        Step::Remove
    } else {
        Step::Ask
    }
}

pub fn search_step(found: bool, json: bool, removal_wanted: bool, yes: bool) -> (r: Step)
    ensures
        r == search_goes(found, json, removal_wanted, yes),
{
    if json {
        Step::Json
    } else if !found {
        Step::Nothing
    } else if !removal_wanted {
        Step::Show
    } else if yes {
        Step::Remove
    } else {
        Step::Ask
    }
}

/// After an uninstall is planned.
pub open spec fn uninstall_goes(json: bool, yes: bool) -> Step {
    clean_goes(true, json, yes)
}

pub fn uninstall_step(json: bool, yes: bool) -> (r: Step)
    ensures
        r == uninstall_goes(json, yes),
{
    clean_step(true, json, yes)
}

/// After the Trash is measured.
pub open spec fn trash_goes(items: nat, json: bool, empty: bool, yes: bool) -> Step {
    if !empty {
        if json {
            Step::Json
        } else if items == 0 {
            Step::Nothing
        } else {
            Step::Show
        }
    } else if items == 0 {
        Step::Nothing
    } else if yes {
        Step::Remove
    } else {
        Step::Ask
    }
}

pub fn trash_step(items: usize, json: bool, empty: bool, yes: bool) -> (r: Step)
    ensures
        r == trash_goes(items as nat, json, empty, yes),
{
    if !empty {
        if json {
            Step::Json
        } else if items == 0 {
            Step::Nothing
        } else {
            Step::Show
        }
    } else if items == 0 {
        Step::Nothing
    } else if yes {
        Step::Remove
    } else {
        Step::Ask
    }
}

/// Something is removed: at once, or on a yes to the question.
pub open spec fn removes(step: Step, answer: bool) -> bool {
    step == Step::Remove || (step == Step::Ask && answer)
}

/// The plan is shown: what would be removed.
pub open spec fn shows_plan(step: Step) -> bool {
    step == Step::Ask || step == Step::Remove
}

/// Ends a command that may remove something: shows the plan where there is
/// one, asks where that is still open, and removes on a yes. Gives what came
/// of the removal, where there was one.
pub fn carry_out<R, P: Fn(), Q: Fn() -> bool, X: Fn() -> R>(step: Step, show_plan: &P, ask: &Q, remove: &X) -> (r: Option<
    R,
>)
    requires
        call_requires(*show_plan, ()),
        call_requires(*ask, ()),
        call_requires(*remove, ()),
    ensures
        shows_plan(step) ==> call_ensures(*show_plan, (), ()),
        match r {
            Some(outcome) => {
                &&& call_ensures(*remove, (), outcome)
                &&& call_ensures(*show_plan, (), ())
                &&& step == Step::Remove || (step == Step::Ask && call_ensures(*ask, (), true))
            },
            None => step != Step::Remove && (step == Step::Ask ==> call_ensures(*ask, (), false)),
        },
{
    match step {
        Step::Ask | Step::Remove => {
            show_plan();
        },
        _ => {
            return None;
        },
    }
    let answer = step == Step::Ask && ask();
    if goes_ahead(step, answer) {
        Some(remove())
    } else {
        None
    }
}

/// Whether to remove, given the answer where there was a question.
pub fn goes_ahead(step: Step, answer: bool) -> (r: bool)
    ensures
        r == removes(step, answer),
{
    match step {
        Step::Remove => true,
        Step::Ask => answer,
        _ => false,
    }
}

/// Nothing is removed without a yes, given in advance or in answer.
pub proof fn nothing_is_removed_without_a_yes(
    found: bool,
    json: bool,
    wanted: bool,
    yes: bool,
    items: nat,
    answer: bool,
)
    requires
        !yes,
        !answer,
    ensures
        !removes(clean_goes(found, json, yes), answer),
        !removes(search_goes(found, json, wanted, yes), answer),
        !removes(uninstall_goes(json, yes), answer),
        !removes(trash_goes(items, json, wanted, yes), answer),
{
}

/// Every command that removes something shows the plan first. A yes given in
/// advance skips the question, and shows the plan wherever it would be shown
/// without.
pub proof fn the_plan_comes_before_a_removal(
    found: bool,
    json: bool,
    wanted: bool,
    yes: bool,
    items: nat,
    answer: bool,
)
    ensures
        removes(clean_goes(found, json, yes), answer) ==> shows_plan(clean_goes(found, json, yes)),
        removes(search_goes(found, json, wanted, yes), answer) ==> shows_plan(search_goes(found, json, wanted, yes)),
        removes(uninstall_goes(json, yes), answer) ==> shows_plan(uninstall_goes(json, yes)),
        removes(trash_goes(items, json, wanted, yes), answer) ==> shows_plan(trash_goes(items, json, wanted, yes)),
        shows_plan(clean_goes(found, json, false)) ==> clean_goes(found, json, true) == Step::Remove,
        shows_plan(search_goes(found, json, wanted, false)) ==> search_goes(found, json, wanted, true) == Step::Remove,
        shows_plan(uninstall_goes(json, false)) ==> uninstall_goes(json, true) == Step::Remove,
        shows_plan(trash_goes(items, json, wanted, false)) ==> trash_goes(items, json, wanted, true) == Step::Remove,
        shows_plan(Step::Remove),
{
}

/// A search or a look at the Trash that was not asked to remove anything
/// removes nothing, whatever is answered.
pub proof fn looking_removes_nothing(found: bool, json: bool, yes: bool, items: nat, answer: bool)
    ensures
        !removes(search_goes(found, json, false, yes), answer),
        !removes(trash_goes(items, json, false, yes), answer),
{
}

/// What each command does next. A clean that found nothing does nothing, and
/// as JSON it is a plan until there is a yes. A search as JSON is a listing,
/// and removes only where that was asked for. The Trash is emptied only where
/// that was asked for and something is in it.
pub proof fn what_comes_next(found: bool, json: bool, wanted: bool, yes: bool, items: nat)
    ensures
        clean_goes(false, json, yes) == Step::Nothing,
        clean_goes(true, json, true) == Step::Remove,
        clean_goes(true, true, false) == Step::Json,
        clean_goes(true, false, false) == Step::Ask,
        uninstall_goes(json, true) == Step::Remove,
        uninstall_goes(true, false) == Step::Json,
        uninstall_goes(false, false) == Step::Ask,
        search_goes(found, true, wanted, yes) == Step::Json,
        search_goes(false, false, wanted, yes) == Step::Nothing,
        search_goes(true, false, false, yes) == Step::Show,
        search_goes(true, false, true, true) == Step::Remove,
        search_goes(true, false, true, false) == Step::Ask,
        trash_goes(items, true, false, yes) == Step::Json,
        trash_goes(0, false, false, yes) == Step::Nothing,
        items > 0 ==> trash_goes(items, false, false, yes) == Step::Show,
        trash_goes(0, json, true, yes) == Step::Nothing,
        items > 0 ==> trash_goes(items, json, true, true) == Step::Remove,
        items > 0 ==> trash_goes(items, json, true, false) == Step::Ask,
{
}

} // verus!
