//! Copies of what a configuration holds.

use vstd::prelude::*;

use crate::config::schema::{Application, Yaml};
use crate::config::table::Table;

verus! {

/// Two documents hold the same.
pub open spec fn same_yaml(a: Yaml, b: Yaml) -> bool
    decreases a,
{
    match (a, b) {
        (Yaml::List(x), Yaml::List(y)) => {
            &&& x@.len() == y@.len()
            &&& forall|i: int| 0 <= i < x@.len() ==> same_yaml(#[trigger] x@[i], y@[i])
        },
        (Yaml::Mapping(x), Yaml::Mapping(y)) => {
            &&& x@.len() == y@.len()
            &&& forall|i: int|
                0 <= i < x@.len() ==> same_yaml((#[trigger] x@[i]).0, y@[i].0) && same_yaml(
                    x@[i].1,
                    y@[i].1,
                )
        },
        _ => a == b,
    }
}

fn copy_yaml(v: &Yaml) -> (r: Yaml)
    ensures
        same_yaml(*v, r),
    decreases *v,
{
    match v {
        Yaml::Null => Yaml::Null,
        Yaml::Bool(b) => Yaml::Bool(*b),
        Yaml::Number(n) => Yaml::Number(n.clone()),
        Yaml::Text(s) => Yaml::Text(s.clone()),
        Yaml::List(items) => {
            let mut out: Vec<Yaml> = Vec::new();
            let mut i: usize = 0;
            while i < items.len()
                invariant
                    i <= items@.len(),
                    *v is List,
                    v->List_0 == *items,
                    out@.len() == i,
                    forall|j: int| 0 <= j < i ==> same_yaml(#[trigger] items@[j], out@[j]),
                decreases items@.len() - i,
            {
                assert((v->List_0)@[i as int] == items@[i as int]);
                assert(decreases_to!(v->List_0 => items@[i as int]));
                out.push(copy_yaml(&items[i]));
                i += 1;
            }
            Yaml::List(out)
        },
        Yaml::Mapping(pairs) => {
            let mut out: Vec<(Yaml, Yaml)> = Vec::new();
            let mut i: usize = 0;
            while i < pairs.len()
                invariant
                    i <= pairs@.len(),
                    *v is Mapping,
                    v->Mapping_0 == *pairs,
                    out@.len() == i,
                    forall|j: int|
                        0 <= j < i ==> same_yaml((#[trigger] pairs@[j]).0, out@[j].0) && same_yaml(
                            pairs@[j].1,
                            out@[j].1,
                        ),
                decreases pairs@.len() - i,
            {
                assert((v->Mapping_0)@[i as int] == pairs@[i as int]);
                assert(decreases_to!(v->Mapping_0 => pairs@[i as int]));
                out.push((copy_yaml(&pairs[i].0), copy_yaml(&pairs[i].1)));
                i += 1;
            }
            Yaml::Mapping(out)
        },
    }
}

/// Two applications are configured alike.
pub open spec fn same_application(a: Application, b: Application) -> bool {
    &&& b.module == a.module
    &&& b.root == a.root
    &&& b.script == a.script
    &&& b.index == a.index
    &&& b.user == a.user
    &&& b.group == a.group
    &&& b.working_directory == a.working_directory
    &&& b.execute@ == a.execute@
    &&& b.environment.entries() == a.environment.entries()
    &&& b.processes == a.processes
    &&& b.concurrency == a.concurrency
    &&& b.queue == a.queue
    &&& b.limits == a.limits
    &&& match (a.options, b.options) {
        (None, None) => true,
        (Some(x), Some(y)) => same_yaml(x, y),
        _ => false,
    }
}

/// The same names stand for applications that are configured alike.
pub open spec fn same_applications(a: Table<Application>, b: Table<Application>) -> bool {
    &&& b.entries().len() == a.entries().len()
    &&& forall|i: int|
        0 <= i < a.entries().len() ==> (#[trigger] b.entries()[i]).0 == a.entries()[i].0
            && same_application(a.entries()[i].1, b.entries()[i].1)
}

fn copy_option(s: &Option<String>) -> (r: Option<String>)
    ensures
        r == *s,
{
    match s {
        Some(t) => Some(t.clone()),
        None => None,
    }
}

fn copy_list(v: &Vec<String>) -> (r: Vec<String>)
    ensures
        r@ == v@,
{
    let mut out: Vec<String> = Vec::new();
    let mut i: usize = 0;
    while i < v.len()
        invariant
            i <= v@.len(),
            out@ == v@.take(i as int),
        decreases v@.len() - i,
    {
        proof {
            assert(v@.take(i + 1) =~= v@.take(i as int).push(v@[i as int]));
        }
        out.push(v[i].clone());
        i += 1;
    }
    assert(v@.take(i as int) =~= v@);
    out
}

fn copy_texts(t: &Table<String>) -> (r: Table<String>)
    ensures
        r.entries() == t.entries(),
{
    let mut values: Vec<String> = Vec::new();
    let mut i: usize = 0;
    while i < t.len()
        invariant
            i <= t.entries().len(),
            values@.len() == i,
            forall|j: int| 0 <= j < i ==> #[trigger] values@[j] == t.entries()[j].1,
        decreases t.entries().len() - i,
    {
        values.push(t.value(i).clone());
        i += 1;
    }
    let r = t.with_values(values);
    assert(r.entries() =~= t.entries());
    r
}

fn copy_application(a: &Application) -> (r: Application)
    ensures
        same_application(*a, r),
{
    Application {
        module: a.module.clone(),
        root: copy_option(&a.root),
        script: copy_option(&a.script),
        index: copy_option(&a.index),
        user: copy_option(&a.user),
        group: copy_option(&a.group),
        working_directory: copy_option(&a.working_directory),
        execute: copy_list(&a.execute),
        environment: copy_texts(&a.environment),
        processes: a.processes,
        concurrency: a.concurrency,
        queue: a.queue,
        limits: a.limits,
        options: match &a.options {
            Some(v) => Some(copy_yaml(v)),
            None => None,
        },
    }
}

/// A copy of the applications of a configuration.
pub fn copy_applications(t: &Table<Application>) -> (r: Table<Application>)
    ensures
        same_applications(*t, r),
{
    let mut values: Vec<Application> = Vec::new();
    let mut i: usize = 0;
    while i < t.len()
        invariant
            i <= t.entries().len(),
            values@.len() == i,
            forall|j: int|
                0 <= j < i ==> same_application(t.entries()[j].1, #[trigger] values@[j]),
        decreases t.entries().len() - i,
    {
        values.push(copy_application(t.value(i)));
        i += 1;
    }
    let ghost all = values@;
    let r = t.with_values(values);
    assert forall|j: int| 0 <= j < t.entries().len() implies (#[trigger] r.entries()[j]).0
        == t.entries()[j].0 && same_application(t.entries()[j].1, r.entries()[j].1) by {
        assert(r.entries()[j].1 == all[j]);
    }
    r
}

} // verus!
