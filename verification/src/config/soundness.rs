//! What holds of every configuration that is accepted.

use vstd::prelude::*;
use vstd::string::*;

use crate::config::schema::{Action, ApplicationRef, Config, Listener, RouteStep};
use crate::config::validate::{
    accepted, action_fault, all_applications, listener_fault, listener_target, listeners_fault,
    reach_within, routes_fault, steps_fault, terminals,
};

verus! {

/// An action names one terminal, whatever it names exists, and a fallback
/// stands only beside a share and is itself such an action.
pub open spec fn sound(a: Action, routes: Seq<Seq<char>>, apps: Set<Seq<char>>) -> bool
    decreases a,
{
    &&& terminals(a) == 1
    &&& a.application matches Some(ApplicationRef::Name(n)) ==> apps.contains(n@)
    &&& a.route matches Some(r) ==> routes.contains(r@)
    &&& match a.fallback {
        Some(f) => a.share is Some && sound(*f, routes, apps),
        None => true,
    }
}

proof fn lemma_listener(ls: Seq<(String, Listener)>, keys: Seq<Seq<char>>, i: int)
    requires
        listeners_fault(ls, keys) is None,
        0 <= i < ls.len(),
    ensures
        listener_fault(ls[i].0@, ls[i].1, keys) is None,
    decreases ls.len(),
{
    if i < ls.len() - 1 {
        lemma_listener(ls.drop_last(), keys, i);
    }
}

proof fn lemma_action(
    a: Action,
    path: Seq<char>,
    keys: Seq<Seq<char>>,
    reach: Seq<bool>,
    apps: Set<Seq<char>>,
)
    requires
        action_fault(a, path, keys, reach, apps) is None,
    ensures
        sound(a, keys, apps),
    decreases a,
{
    if a.fallback is Some {
        lemma_action(*(a.fallback->0), path + ".fallback"@, keys, reach, apps);
    }
}

proof fn lemma_step(
    steps: Seq<RouteStep>,
    route: Seq<char>,
    keys: Seq<Seq<char>>,
    reach: Seq<bool>,
    apps: Set<Seq<char>>,
    i: int,
)
    requires
        steps_fault(steps, route, keys, reach, apps) is None,
        0 <= i < steps.len(),
    ensures
        sound(steps[i].action, keys, apps),
    decreases steps.len(),
{
    if i < steps.len() - 1 {
        lemma_step(steps.drop_last(), route, keys, reach, apps, i);
    } else {
        lemma_action(
            steps[i].action,
            crate::config::validate::action_path(route, i),
            keys,
            reach,
            apps,
        );
    }
}

proof fn lemma_route(
    routes: Seq<(String, Vec<RouteStep>)>,
    keys: Seq<Seq<char>>,
    reach: Seq<bool>,
    apps: Set<Seq<char>>,
    r: int,
)
    requires
        routes_fault(routes, keys, reach, apps) is None,
        0 <= r < routes.len(),
    ensures
        routes[r].1@.len() > 0,
        steps_fault(routes[r].1@, routes[r].0@, keys, reach, apps) is None,
    decreases routes.len(),
{
    if r < routes.len() - 1 {
        lemma_route(routes.drop_last(), keys, reach, apps, r);
    }
}

/// In an accepted configuration there is a listener, and each listener has an
/// address that can be bound and leads either to a route that exists or to the
/// status endpoint.
pub proof fn listeners_lead_somewhere(c: Config, auto: u32, i: int)
    requires
        accepted(c, auto),
        0 <= i < c.listeners.entries().len(),
    ensures
        c.listeners.entries().len() > 0,
        listener_target(c.listeners.key(i)) is Ok,
        match c.listeners.val(i).route {
            Some(route) => !c.listeners.val(i).status && c.routes.keys().contains(route@),
            None => c.listeners.val(i).status,
        },
{
    lemma_listener(c.listeners.entries(), c.routes.keys(), i);
}

/// In an accepted configuration every route has a step, and every step's
/// action is sound.
pub proof fn actions_are_sound(c: Config, auto: u32, r: int, s: int)
    requires
        accepted(c, auto),
        0 <= r < c.routes.entries().len(),
        0 <= s < c.routes.val(r)@.len(),
    ensures
        sound(
            c.routes.val(r)@[s].action,
            c.routes.keys(),
            all_applications(c, auto)->Ok_0.dom(),
        ),
{
    let reach = reach_within(c.routes, None, c.routes.entries().len());
    let apps = all_applications(c, auto)->Ok_0.dom();
    lemma_route(c.routes.entries(), c.routes.keys(), reach, apps, r);
    lemma_step(c.routes.val(r)@, c.routes.key(r), c.routes.keys(), reach, apps, s);
}

/// In an accepted configuration no route is empty.
pub proof fn routes_have_steps(c: Config, auto: u32, r: int)
    requires
        accepted(c, auto),
        0 <= r < c.routes.entries().len(),
    ensures
        c.routes.val(r)@.len() > 0,
{
    let reach = reach_within(c.routes, None, c.routes.entries().len());
    let apps = all_applications(c, auto)->Ok_0.dom();
    lemma_route(c.routes.entries(), c.routes.keys(), reach, apps, r);
}

} // verus!
