use vlsp::loader::{is_le, load_plan, plugin_scripts, schema_scripts, stringify_call, LoadStep};

fn names(list: &[&str]) -> Vec<String> {
    list.iter().map(|s| s.to_string()).collect()
}

#[test]
fn schema_scripts_are_sorted() {
    let listing = names(&["b.js", "a.js", "readme.md", "B.js", "a.js.map", "é.js", ".js"]);
    assert_eq!(schema_scripts(&listing), names(&["B.js", "a.js", "b.js", "é.js"]));
    assert!(schema_scripts(&Vec::new()).is_empty());
}

#[test]
fn listing_order_does_not_matter() {
    let one = schema_scripts(&names(&["c.js", "a.js", "b.js"]));
    let two = schema_scripts(&names(&["b.js", "c.js", "a.js"]));
    assert_eq!(one, two);
}

#[test]
fn plugin_scripts_are_sorted() {
    let listing = names(&["z.ts", "_patches.js", "a.js", "a.d", "m.ts"]);
    assert_eq!(plugin_scripts(&listing), names(&["a.js", "m.ts", "z.ts"]));
}

#[test]
fn order_is_that_of_strings() {
    for a in ["", "a", "ab", "b", "é", "\u{ffff}", "\u{10000}", "Z"] {
        for b in ["", "a", "ab", "b", "é", "\u{ffff}", "\u{10000}", "Z"] {
            assert_eq!(is_le(a, b), a <= b, "{a} {b}");
        }
    }
}

#[test]
fn plan_seeds_runs_and_reads() {
    let plan = load_plan(&names(&["b.js", "x.txt", "a.js"]));
    assert_eq!(plan.len(), 4);
    assert!(matches!(&plan[0], LoadStep::Run { name, source }
        if name == "__init__" && source == "var files = {};"));
    assert!(matches!(&plan[1], LoadStep::RunFile(name) if name == "a.js"));
    assert!(matches!(&plan[2], LoadStep::RunFile(name) if name == "b.js"));
    assert!(matches!(&plan[3], LoadStep::Eval(expr) if expr == "JSON.stringify(files)"));
}

#[test]
fn expressions_are_wrapped() {
    assert_eq!(stringify_call("a + b"), "JSON.stringify(a + b)");
}
