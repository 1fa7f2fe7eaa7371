//! Which scripts are run, and in what order.

use vstd::prelude::*;
use vstd::string::*;

use crate::paths::{extension_of, has_extension, is_plugin_file, is_plugin_name};
use crate::schema::texts;
use crate::text::to_chars;

verus! {

// ---------------------------------------------------------------------------
// Order
// ---------------------------------------------------------------------------

/// True when `a` does not come after `b` in the order of their characters.
pub open spec fn text_le(a: Seq<char>, b: Seq<char>) -> bool
    decreases a.len(),
{
    if a.len() == 0 {
        true
    } else if b.len() == 0 {
        false
    } else if a[0] != b[0] {
        a[0] < b[0]
    } else {
        text_le(a.skip(1), b.skip(1))
    }
}

/// True when every text of the list comes before, or is equal to, those behind it.
pub open spec fn in_order(list: Seq<Seq<char>>) -> bool {
    forall|i: int, j: int| 0 <= i < j < list.len() ==> text_le(#[trigger] list[i], #[trigger] list[j])
}

proof fn lemma_le_total(a: Seq<char>, b: Seq<char>)
    ensures
        text_le(a, b) || text_le(b, a),
    decreases a.len(),
{
    if a.len() > 0 && b.len() > 0 && a[0] == b[0] {
        lemma_le_total(a.skip(1), b.skip(1));
    }
}

proof fn lemma_le_transitive(a: Seq<char>, b: Seq<char>, c: Seq<char>)
    requires
        text_le(a, b),
        text_le(b, c),
    ensures
        text_le(a, c),
    decreases a.len(),
{
    if a.len() > 0 && b.len() > 0 && c.len() > 0 && a[0] == b[0] && b[0] == c[0] {
        lemma_le_transitive(a.skip(1), b.skip(1), c.skip(1));
    }
}

/// Two texts neither of which comes after the other are the same.
pub proof fn lemma_le_antisymmetric(a: Seq<char>, b: Seq<char>)
    requires
        text_le(a, b),
        text_le(b, a),
    ensures
        a == b,
    decreases a.len(),
{
    if a.len() > 0 && b.len() > 0 {
        lemma_le_antisymmetric(a.skip(1), b.skip(1));
        assert(a =~= seq![a[0]] + a.skip(1));
        assert(b =~= seq![b[0]] + b.skip(1));
    } else {
        assert(a =~= b);
    }
}

/// True when `a` does not come after `b`.
pub fn is_le(a: &str, b: &str) -> (result: bool)
    ensures
        result == text_le(a@, b@),
{
    let x = to_chars(a);
    let y = to_chars(b);
    let mut i: usize = 0;
    assert(x@.skip(0) =~= x@);
    assert(y@.skip(0) =~= y@);
    while i < x.len() && i < y.len()
        invariant
            x@ == a@,
            y@ == b@,
            i <= x@.len(),
            i <= y@.len(),
            text_le(a@, b@) == text_le(x@.skip(i as int), y@.skip(i as int)),
        decreases x@.len() - i,
    {
        if x[i] != y[i] {
            return x[i] < y[i];
        }
        assert(x@.skip(i as int).skip(1) =~= x@.skip(i + 1));
        assert(y@.skip(i as int).skip(1) =~= y@.skip(i + 1));
        i = i + 1;
    }
    i == x.len()
}

/// Inserts a name into an ordered list, before the first one that it does not come after.
fn insert_in_order(list: &mut Vec<String>, name: String)
    requires
        in_order(texts(old(list)@)),
    ensures
        in_order(texts(final(list)@)),
        texts(final(list)@).to_multiset() == texts(old(list)@).to_multiset().insert(name@),
{
    let mut at: usize = 0;
    let ghost before = texts(list@);
    while at < list.len() && !is_le(name.as_str(), list[at].as_str())
        invariant
            list@ == old(list)@,
            before == texts(list@),
            in_order(before),
            at <= list@.len(),
            forall|j: int| 0 <= j < at ==> text_le(#[trigger] before[j], name@),
        decreases list@.len() - at,
    {
        proof {
            lemma_le_total(name@, list@[at as int]@);
        }
        assert(before[at as int] == list@[at as int]@);
        at = at + 1;
    }
    let ghost new = name@;
    let ghost after = before.insert(at as int, new);
    assert(forall|j: int| at <= j < before.len() ==> text_le(new, #[trigger] before[j])) by {
        if at < before.len() {
            assert(before[at as int] == list@[at as int]@);
            assert forall|j: int| at <= j < before.len() implies text_le(
                new,
                #[trigger] before[j],
            ) by {
                if j > at {
                    assert(text_le(before[at as int], before[j]));
                    lemma_le_transitive(new, before[at as int], before[j]);
                }
            }
        }
    }
    list.insert(at, name);
    assert(texts(list@) =~= after);
    assert forall|i: int, j: int| 0 <= i < j < after.len() implies text_le(
        #[trigger] after[i],
        #[trigger] after[j],
    ) by {
        let k = |n: int| if n < at {
            n
        } else {
            n - 1
        };
        if i != at {
            assert(after[i] == before[k(i)]);
        }
        if j != at {
            assert(after[j] == before[k(j)]);
        }
    }
    proof {
        vstd::seq_lib::to_multiset_insert(before, at as int, new);
    }
}

// ---------------------------------------------------------------------------
// Scripts of a directory
// ---------------------------------------------------------------------------

/// True when `list` holds the texts of `all`, each as often, in order.
pub open spec fn is_ordering_of(list: Seq<Seq<char>>, all: Seq<Seq<char>>) -> bool {
    &&& in_order(list)
    &&& list.to_multiset() == all.to_multiset()
}

/// The names of schema scripts in a directory listing.
pub open spec fn schema_names(names: Seq<Seq<char>>) -> Seq<Seq<char>> {
    names.filter(|name: Seq<char>| extension_of(name) == Some("js"@))
}

/// The names of plugin scripts in a directory listing.
pub open spec fn plugin_names(names: Seq<Seq<char>>) -> Seq<Seq<char>> {
    names.filter(|name: Seq<char>| is_plugin_name(name))
}

/// The schema scripts of a directory in the order in which they are loaded.
pub fn schema_scripts(names: &Vec<String>) -> (result: Vec<String>)
    ensures
        is_ordering_of(texts(result@), schema_names(texts(names@))),
{
    let mut list: Vec<String> = Vec::new();
    let mut i: usize = 0;
    let ghost all = texts(names@);
    proof {
        reveal(Seq::filter);
        assert(texts(list@) =~= Seq::empty());
        assert(schema_names(all.take(0)) =~= Seq::empty());
    }
    while i < names.len()
        invariant
            all == texts(names@),
            i <= names@.len(),
            is_ordering_of(texts(list@), schema_names(all.take(i as int))),
        decreases names@.len() - i,
    {
        proof {
            reveal(Seq::filter);
            assert(all.take(i + 1).drop_last() =~= all.take(i as int));
            assert(all.take(i + 1).last() == names@[i as int]@);
            schema_names(all.take(i as int)).to_multiset_ensures();
        }
        if has_extension(names[i].as_str(), "js") {
            insert_in_order(&mut list, names[i].clone());
        }
        i = i + 1;
    }
    assert(all.take(i as int) =~= all);
    list
}

/// The plugin scripts of a directory in the order in which they are loaded.
pub fn plugin_scripts(names: &Vec<String>) -> (result: Vec<String>)
    ensures
        is_ordering_of(texts(result@), plugin_names(texts(names@))),
{
    let mut list: Vec<String> = Vec::new();
    let mut i: usize = 0;
    let ghost all = texts(names@);
    proof {
        reveal(Seq::filter);
        assert(texts(list@) =~= Seq::empty());
        assert(plugin_names(all.take(0)) =~= Seq::empty());
    }
    while i < names.len()
        invariant
            all == texts(names@),
            i <= names@.len(),
            is_ordering_of(texts(list@), plugin_names(all.take(i as int))),
        decreases names@.len() - i,
    {
        proof {
            reveal(Seq::filter);
            assert(all.take(i + 1).drop_last() =~= all.take(i as int));
            assert(all.take(i + 1).last() == names@[i as int]@);
            plugin_names(all.take(i as int)).to_multiset_ensures();
        }
        if is_plugin_file(names[i].as_str()) {
            insert_in_order(&mut list, names[i].clone());
        }
        i = i + 1;
    }
    assert(all.take(i as int) =~= all);
    list
}

// ---------------------------------------------------------------------------
// Loading the schema
// ---------------------------------------------------------------------------

/// One step of loading a schema into a script runtime.
#[derive(Debug)]
pub enum LoadStep {
    /// Run a snippet under a name.
    Run { name: String, source: String },
    /// Run the script with this file name.
    RunFile(String),
    /// Evaluate an expression to a text of JSON.
    Eval(String),
}

/// What a step holds.
pub enum LoadStepView {
    Run { name: Seq<char>, source: Seq<char> },
    RunFile(Seq<char>),
    Eval(Seq<char>),
}

impl View for LoadStep {
    type V = LoadStepView;

    open spec fn view(&self) -> LoadStepView {
        match self {
            LoadStep::Run { name, source } => LoadStepView::Run { name: name@, source: source@ },
            LoadStep::RunFile(name) => LoadStepView::RunFile(name@),
            LoadStep::Eval(expr) => LoadStepView::Eval(expr@),
        }
    }
}

/// The call that turns the value of a JavaScript expression into a text of JSON.
pub open spec fn stringify_of(expr: Seq<char>) -> Seq<char> {
    "JSON.stringify("@ + expr + ")"@
}

/// Wraps a JavaScript expression so that it evaluates to a text of JSON.
pub fn stringify_call(expr: &str) -> (result: String)
    ensures
        result@ == stringify_of(expr@),
{
    let mut out = String::new();
    out.append("JSON.stringify(");
    out.append(expr);
    out.append(")");
    assert(Seq::<char>::empty() + "JSON.stringify("@ =~= "JSON.stringify("@);
    out
}

/// The steps that load the scripts in the given order: the registry that every script
/// writes into is seeded, each script is run, and the registry is read out.
pub open spec fn plan_of(scripts: Seq<Seq<char>>) -> Seq<LoadStepView> {
    seq![LoadStepView::Run { name: "__init__"@, source: "var files = {};"@ }] + scripts.map_values(
        |name: Seq<char>| LoadStepView::RunFile(name),
    ) + seq![LoadStepView::Eval(stringify_of("files"@))]
}

/// What the steps of a plan hold.
pub open spec fn step_views(steps: Seq<LoadStep>) -> Seq<LoadStepView> {
    steps.map_values(|s: LoadStep| s@)
}

/// How a schema is loaded from a directory with the given file names.
pub fn load_plan(names: &Vec<String>) -> (result: Vec<LoadStep>)
    ensures
        exists|scripts: Seq<Seq<char>>| #[trigger]
            is_ordering_of(scripts, schema_names(texts(names@))) && step_views(result@) == plan_of(
                scripts,
            ),
{
    let scripts = schema_scripts(names);
    let ghost all = texts(scripts@);
    let mut steps: Vec<LoadStep> = Vec::new();
    steps.push(
        LoadStep::Run { name: "__init__".to_owned(), source: "var files = {};".to_owned() },
    );
    let ghost first = LoadStepView::Run { name: "__init__"@, source: "var files = {};"@ };
    let ghost run = |name: Seq<char>| LoadStepView::RunFile(name);
    assert(step_views(steps@) =~= seq![first] + all.take(0).map_values(run));
    let mut i: usize = 0;
    while i < scripts.len()
        invariant
            all == texts(scripts@),
            i <= scripts@.len(),
            run == (|name: Seq<char>| LoadStepView::RunFile(name)),
            step_views(steps@) == seq![first] + all.take(i as int).map_values(run),
        decreases scripts@.len() - i,
    {
        let ghost before = steps@;
        steps.push(LoadStep::RunFile(scripts[i].clone()));
        assert(step_views(steps@) =~= step_views(before).push(LoadStepView::RunFile(all[i as int])));
        assert(all.take(i + 1).map_values(run) =~= all.take(i as int).map_values(run).push(
            LoadStepView::RunFile(all[i as int]),
        ));
        assert(step_views(steps@) =~= seq![first] + all.take(i + 1).map_values(run));
        i = i + 1;
    }
    steps.push(LoadStep::Eval(stringify_call("files")));
    assert(all.take(i as int) =~= all);
    assert(step_views(steps@) =~= plan_of(all));
    steps
}

// ---------------------------------------------------------------------------
// Laws
// ---------------------------------------------------------------------------

/// Texts have one order only: two ordered lists of the same texts are the same list.
pub proof fn law_order_is_unique(a: Seq<Seq<char>>, b: Seq<Seq<char>>, all: Seq<Seq<char>>)
    requires
        is_ordering_of(a, all),
        is_ordering_of(b, all),
    ensures
        a == b,
{
    let leq = |x: Seq<char>, y: Seq<char>| text_le(x, y);
    assert forall|x: Seq<char>| #[trigger] leq(x, x) by {
        lemma_le_total(x, x);
    }
    assert forall|x: Seq<char>, y: Seq<char>| #[trigger]
        leq(x, y) && #[trigger] leq(y, x) implies x == y by {
        lemma_le_antisymmetric(x, y);
    }
    assert forall|x: Seq<char>, y: Seq<char>, z: Seq<char>| #[trigger]
        leq(x, y) && #[trigger] leq(y, z) implies leq(x, z) by {
        lemma_le_transitive(x, y, z);
    }
    assert forall|x: Seq<char>, y: Seq<char>| #[trigger] leq(x, y) || #[trigger] leq(y, x) by {
        lemma_le_total(x, y);
    }
    assert(vstd::relations::sorted_by(a, leq)) by {
        assert forall|i: int, j: int| 0 <= i < j < a.len() implies #[trigger] leq(a[i], a[j]) by {
            assert(text_le(a[i], a[j]));
        }
    }
    assert(vstd::relations::sorted_by(b, leq)) by {
        assert forall|i: int, j: int| 0 <= i < j < b.len() implies #[trigger] leq(b[i], b[j]) by {
            assert(text_le(b[i], b[j]));
        }
    }
    vstd::seq_lib::lemma_sorted_unique(a, b, leq);
}

/// Filtering keeps every text that passes as often as it is there.
proof fn lemma_filter_counts(
    list: Seq<Seq<char>>,
    pass: spec_fn(Seq<char>) -> bool,
    x: Seq<char>,
)
    ensures
        list.filter(pass).to_multiset().count(x) == (if pass(x) {
            list.to_multiset().count(x)
        } else {
            0
        }),
    decreases list.len(),
{
    reveal(Seq::filter);
    if list.len() == 0 {
        assert(list.filter(pass) =~= list);
        list.to_multiset_ensures();
        assert(!list.contains(x));
    } else {
        let rest = list.drop_last();
        lemma_filter_counts(rest, pass, x);
        assert(rest.push(list.last()) =~= list);
        rest.to_multiset_ensures();
        rest.filter(pass).to_multiset_ensures();
    }
}

/// The order in which a directory lists its files has no influence on the order in which
/// the scripts are loaded.
pub proof fn law_load_order_is_deterministic(
    a: Seq<Seq<char>>,
    b: Seq<Seq<char>>,
    first: Seq<Seq<char>>,
    second: Seq<Seq<char>>,
)
    requires
        a.to_multiset() == b.to_multiset(),
        is_ordering_of(first, schema_names(a)),
        is_ordering_of(second, schema_names(b)),
    ensures
        first == second,
        plan_of(first) == plan_of(second),
{
    let pass = |name: Seq<char>| extension_of(name) == Some("js"@);
    assert(schema_names(a).to_multiset() =~= schema_names(b).to_multiset()) by {
        assert forall|x: Seq<char>| schema_names(a).to_multiset().count(x) == schema_names(
            b,
        ).to_multiset().count(x) by {
            lemma_filter_counts(a, pass, x);
            lemma_filter_counts(b, pass, x);
        }
    }
    law_order_is_unique(first, second, schema_names(a));
}

/// Texts are ordered by the first character in which they differ; a text comes before
/// those that it starts.
pub proof fn law_text_order(
    common: Seq<char>,
    c: char,
    a: Seq<char>,
    d: char,
    b: Seq<char>,
)
    requires
        c < d,
    ensures
        text_le(common + seq![c] + a, common + seq![d] + b),
        !text_le(common + seq![d] + b, common + seq![c] + a),
        text_le(common, common + a),
        a.len() > 0 ==> !text_le(common + a, common),
    decreases common.len(),
{
    let x = common + seq![c] + a;
    let y = common + seq![d] + b;
    let z = common + a;
    if common.len() == 0 {
        assert(x[0] == c && y[0] == d);
    } else {
        let rest = common.skip(1);
        law_text_order(rest, c, a, d, b);
        assert(x[0] == common[0] && y[0] == common[0] && z[0] == common[0]);
        assert(x.skip(1) =~= rest + seq![c] + a);
        assert(y.skip(1) =~= rest + seq![d] + b);
        assert(z.skip(1) =~= rest + a);
    }
}

/// The schema scripts are the names of the directory that end in `.js`, each as often as it
/// is there, in order, and the plugin scripts likewise the names of plugins.
pub proof fn law_scripts_of_a_directory(
    names: Seq<Seq<char>>,
    schema: Seq<Seq<char>>,
    plugins: Seq<Seq<char>>,
    x: Seq<char>,
)
    requires
        is_ordering_of(schema, schema_names(names)),
        is_ordering_of(plugins, plugin_names(names)),
    ensures
        schema.to_multiset().count(x) == (if extension_of(x) == Some(seq!['j', 's']) {
            names.to_multiset().count(x)
        } else {
            0
        }),
        plugins.to_multiset().count(x) == (if is_plugin_name(x) {
            names.to_multiset().count(x)
        } else {
            0
        }),
        forall|i: int, j: int|
            0 <= i < j < schema.len() ==> text_le(#[trigger] schema[i], #[trigger] schema[j]),
        forall|i: int, j: int|
            0 <= i < j < plugins.len() ==> text_le(#[trigger] plugins[i], #[trigger] plugins[j]),
{
    reveal_strlit("js");
    assert("js"@ =~= seq!['j', 's']);
    lemma_filter_counts(names, |name: Seq<char>| extension_of(name) == Some("js"@), x);
    lemma_filter_counts(names, |name: Seq<char>| is_plugin_name(name), x);
}

/// A plan seeds the registry first, then runs each script once, in order, and reads the
/// registry out last.
pub proof fn law_plan(scripts: Seq<Seq<char>>)
    ensures
        plan_of(scripts).len() == scripts.len() + 2,
        plan_of(scripts)[0] == (LoadStepView::Run {
            name: "__init__"@,
            source: "var files = {};"@,
        }),
        forall|i: int| #![trigger scripts[i]]
            0 <= i < scripts.len() ==> plan_of(scripts)[i + 1] == LoadStepView::RunFile(scripts[i]),
        plan_of(scripts)[scripts.len() as int + 1] == LoadStepView::Eval(
            "JSON.stringify("@ + "files"@ + ")"@,
        ),
{
}

} // verus!
