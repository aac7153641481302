//! Reading and running scripts.

use irc_tui::ast::CmpOp;
use irc_tui::client::{Recorder, Request};
use irc_tui::eval::{compare, decide, is_truthy, order_texts};
use irc_tui::host::NumberOrder;
use irc_tui::interp::Interpreter;
use irc_tui::outside::Outside;
use irc_tui::parser::parse_script;
use irc_tui::quote::unquote;
use irc_tui::subst::substitute;

/// A world with a few files.
fn read(path: &str) -> Result<String, String> {
    match path {
        "ok.script" => Ok("echo loaded [$1]\nalias greet { echo hi $1 }".to_string()),
        "bad.script" => Ok("echo fine\nif x".to_string()),
        "again.script" => Ok("load again.script".to_string()),
        _ => Err("no such file".to_string()),
    }
}

/// A world in which numbers are compared as such.
fn order(left: &str, right: &str) -> Option<NumberOrder> {
    let l: f64 = match left.parse() {
        Ok(n) => n,
        Err(_) => return None,
    };
    let r: f64 = match right.parse() {
        Ok(n) => n,
        Err(_) => return None,
    };
    Some(if l < r {
        NumberOrder::Less
    } else if l > r {
        NumberOrder::Greater
    } else if l == r {
        NumberOrder::Equal
    } else {
        NumberOrder::Unordered
    })
}

/// What was asked for, but for comparisons and files, as lines of text.
fn notes(requests: Vec<Request>) -> Vec<String> {
    let mut lines = Vec::new();
    for request in requests {
        match request {
            Request::Run { name, args } => lines.push(format!("{}({})", name, args.join("|"))),
            Request::Report { message } => lines.push(format!("! {}", message)),
            Request::Read { .. } => {}
            Request::Compare { .. } => {}
        }
    }
    lines
}

fn strings(list: &[&str]) -> Vec<String> {
    list.iter().map(|s| s.to_string()).collect()
}

fn run_with(interpreter: &mut Interpreter, text: &str, args: &[&str]) -> Vec<String> {
    let outside = Outside::new(read, order);
    let mut host = Recorder::new(&outside);
    match parse_script(text) {
        Ok(script) => interpreter.exec(&script, &strings(args), &mut host),
        Err(e) => panic!("{}", e),
    }
    notes(host.into_requests())
}

fn run(text: &str) -> Vec<String> {
    run_with(&mut Interpreter::new(), text, &[])
}

fn error_of(text: &str) -> String {
    match parse_script(text) {
        Ok(_) => panic!("parsed: {}", text),
        Err(e) => e,
    }
}

// ---------------------------------------------------------------------------
// Commands and their arguments
// ---------------------------------------------------------------------------

#[test]
fn unknown_names_go_to_the_host() {
    assert_eq!(run("echo hello world"), ["echo(hello|world)"]);
    assert_eq!(run("quit"), ["quit()"]);
}

#[test]
fn empty_scripts_do_nothing() {
    assert!(run("").is_empty());
    assert!(run("  ;\n\t;; \r\n").is_empty());
}

#[test]
fn slashes_and_case_make_no_difference() {
    assert_eq!(run("/Echo a"), ["echo(a)"]);
    assert_eq!(run("//ECHO a"), ["echo(a)"]);
    assert_eq!(run("/IF 1 { /eCHo b }"), ["echo(b)"]);
    assert_eq!(run("LoAd; /LOAD"), ["! usage: load <file>", "! usage: load <file>"]);
    assert_eq!(run("/ALIAS Foo { echo x }; /foo"), ["echo(Alias 'foo' defined.)", "echo(x)"]);
}

#[test]
fn statements_end_at_breaks() {
    assert_eq!(run("a 1; b 2\nc 3\r\nd"), ["a(1)", "b(2)", "c(3)", "d()"]);
}

#[test]
fn quoted_arguments_hold_anything() {
    assert_eq!(
        run("echo \"a b\" \"say \\\"hi\\\"\" \"back\\\\slash\" \"{;}\" \"\""),
        ["echo(a b|say \"hi\"|back\\slash|{;}|)"]
    );
}

#[test]
fn unquote_strips_quotes_and_escapes() {
    assert_eq!(unquote("\"a\\nb\""), "anb");
    assert_eq!(unquote("\"\""), "");
    assert_eq!(unquote("bare\\word"), "bare\\word");
    assert_eq!(unquote("\""), "\"");
    assert_eq!(unquote("\"open"), "\"open");
    assert_eq!(unquote("\"tail\\\""), "tail");
}

#[test]
fn substitute_replaces_arguments() {
    let args = strings(&["one", "$3", "three"]);
    assert_eq!(substitute("$1-$2-$3", &args), "one-$3-three");
    assert_eq!(substitute("[$4]", &args), "[]");
    assert_eq!(substitute("$0 $x $ $$1", &args), "$0 $x $ $one");
    assert_eq!(substitute("$01$003", &args), "onethree");
    assert_eq!(substitute("$00", &args), "$00");
    assert_eq!(substitute("a$99999999999999999999999999b", &args), "ab");
    assert_eq!(substitute("no dollars", &args), "no dollars");
    assert_eq!(substitute("$a 5$ $", &args), "$a 5$ $");
    assert_eq!(
        substitute("x$1", &args) + &substitute("y$3", &args),
        substitute("x$1y$3", &args)
    );
}

#[test]
fn ten_is_not_one() {
    let mut list = vec!["a"; 9];
    list.push("ten");
    assert_eq!(substitute("$10 $1", &strings(&list)), "ten a");
}

#[test]
fn arguments_in_scope_reach_commands() {
    assert_eq!(run_with(&mut Interpreter::new(), "echo <$1> <$2>", &["x"]), ["echo(<x>|<>)"]);
}

#[test]
fn everything_quoted_reads_the_same() {
    let text = "echo \"a\" \"$x;\" {\"};if \"1\"==\"1\"&&\"0\"||\"\\\"\" {go \"{}\"};end";
    assert!(parse_script(text).is_err());
    let text = "echo \"a\" \"$x;\" {b};if \"1\"==\"1\"&&\"0\"||\"\\\"\" {go \"{}\"};end";
    assert_eq!(run(text), ["echo(a|$x;)", "go({})", "end()"]);
}

// ---------------------------------------------------------------------------
// Aliases
// ---------------------------------------------------------------------------

#[test]
fn aliases_persist_and_take_arguments() {
    let mut interpreter = Interpreter::new();
    assert_eq!(
        run_with(&mut interpreter, "alias Hi { echo hello $1; echo bye $2 }", &[]),
        ["echo(Alias 'hi' defined.)"]
    );
    assert_eq!(run_with(&mut interpreter, "hi you", &[]), ["echo(hello|you)", "echo(bye|)"]);
    assert_eq!(
        run_with(&mut interpreter, "/HI a b", &["outer"]),
        ["echo(hello|a)", "echo(bye|b)"]
    );
}

#[test]
fn aliases_can_be_redefined() {
    assert_eq!(
        run("alias a { x }; a; alias a { y }; a"),
        ["echo(Alias 'a' defined.)", "x()", "echo(Alias 'a' defined.)", "y()"]
    );
}

#[test]
fn alias_misuse_is_reported() {
    assert_eq!(run("alias foo"), ["! usage: alias <name> { ...commands... }"]);
    assert_eq!(run("alias { x }"), ["! usage: alias <name> { ...commands... }"]);
    for name in ["alias", "IF", "Load"] {
        assert_eq!(
            run(&format!("alias {} {{ x }}", name)),
            ["! can't name an alias 'alias', 'if', or 'load' -- those are reserved"]
        );
    }
}

#[test]
fn runaway_aliases_end() {
    let mut interpreter = Interpreter::new();
    run_with(&mut interpreter, "alias loop { loop }", &[]);
    assert_eq!(run_with(&mut interpreter, "loop", &[]), ["! alias recursion limit exceeded"]);
}

#[test]
fn recursion_runs_up_to_the_limit() {
    let mut interpreter = Interpreter::new();
    run_with(&mut interpreter, "alias loop { tick; loop; tock }", &[]);
    let lines = run_with(&mut interpreter, "loop", &[]);
    assert_eq!(lines.iter().filter(|l| *l == "tick()").count(), 32);
    assert_eq!(lines.iter().filter(|l| *l == "tock()").count(), 32);
    assert_eq!(lines[32], "! alias recursion limit exceeded");
    assert_eq!(lines.len(), 65);
}

#[test]
fn a_block_on_another_command_is_ignored() {
    assert_eq!(run("echo a { echo b }"), ["echo(a)"]);
}

#[test]
fn default_interpreter_knows_no_alias() {
    let mut interpreter = Interpreter::default();
    assert_eq!(run_with(&mut interpreter, "hi", &[]), ["hi()"]);
}

// ---------------------------------------------------------------------------
// Conditions
// ---------------------------------------------------------------------------

fn truth(condition: &str, args: &[&str]) -> bool {
    let lines = run_with(
        &mut Interpreter::new(),
        &format!("if {} {{ yes }}", condition),
        args,
    );
    assert!(lines.is_empty() || lines == ["yes()"]);
    !lines.is_empty()
}

#[test]
fn lone_values_are_true_or_false() {
    assert!(truth("1", &[]));
    assert!(truth("00", &[]));
    assert!(truth("\" \"", &[]));
    assert!(!truth("0", &[]));
    assert!(!truth("FALSE", &[]));
    assert!(!truth("\"\"", &[]));
    assert!(!truth("$1", &[]));
    assert!(truth("$1", &["x"]));
    assert!(is_truthy("falsey") && !is_truthy("False"));
}

#[test]
fn equality_compares_texts() {
    assert!(truth("$1 == foo", &["foo"]));
    assert!(!truth("1 == 1.0", &[]));
    assert!(truth("1 != 1.0", &[]));
    assert!(truth("Foo!=foo", &[]));
}

#[test]
fn numbers_compare_as_numbers() {
    assert!(truth("9 < 10", &[]));
    assert!(truth("1e1 >= 10", &[]));
    assert!(!truth("2 > 10", &[]));
    assert!(truth("-1 <= 0.5", &[]));
    assert!(truth("$1<$2", &["2", "11"]));
}

#[test]
fn other_texts_compare_by_characters() {
    assert!(truth("abc < abd", &[]));
    assert!(!truth("9x < 10", &[]));
    assert!(truth("b > abc", &[]));
    assert!(truth("a <= a", &[]));
    assert!(truth("ab >= a", &[]));
}

#[test]
fn nan_has_no_order() {
    assert!(!truth("nan < 1", &[]));
    assert!(!truth("nan >= 1", &[]));
    assert!(!truth("NaN <= NaN", &[]));
    assert!(truth("nan == nan", &[]));
}

#[test]
fn and_binds_tighter_than_or() {
    assert!(truth("1 || 0 && 0", &[]));
    assert!(truth("0 && 0 || 1", &[]));
    assert!(!truth("0 || 1 && 0", &[]));
    assert!(truth("1 == 1 && 2 == 2 || 0", &[]));
    assert!(truth("a==b||c==c&&d==d", &[]));
}

#[test]
fn connectives_look_no_further_than_needed() {
    let outside = Outside::new(read, order);
    let mut host = Recorder::new(&outside);
    if let Ok(script) = parse_script("if 0 && 1 < 2 { a }; if 1 || 1 < 2 { b }; if 1 < 2 { c }") {
        Interpreter::new().exec(&script, &[], &mut host);
    }
    let requests = host.into_requests();
    assert_eq!(requests.iter().filter(|r| matches!(r, Request::Compare { .. })).count(), 1);
    assert_eq!(notes(requests), ["b()", "c()"]);
}

#[test]
fn blocks_share_the_arguments_around_them() {
    assert_eq!(
        run_with(&mut Interpreter::new(), "if $1 == a { if $2 { echo $1 $2 } }", &["a", "b"]),
        ["echo(a|b)"]
    );
}

#[test]
fn orders_of_texts() {
    assert_eq!(order_texts("", "a"), NumberOrder::Less);
    assert_eq!(order_texts("a", ""), NumberOrder::Greater);
    assert_eq!(order_texts("a", "a"), NumberOrder::Equal);
    assert_eq!(order_texts("a", "b"), NumberOrder::Less);
    assert_eq!(order_texts("b", "ab"), NumberOrder::Greater);
    assert_eq!(order_texts("Z", "a"), NumberOrder::Less);
    assert_eq!(order_texts("z", "\u{e9}"), NumberOrder::Less);
}

#[test]
fn opposites_and_unordered_numbers() {
    for order in [NumberOrder::Less, NumberOrder::Equal, NumberOrder::Greater] {
        assert_ne!(compare(order, CmpOp::Lt), compare(order, CmpOp::Ge));
        assert_ne!(compare(order, CmpOp::Gt), compare(order, CmpOp::Le));
    }
    for op in [CmpOp::Lt, CmpOp::Le, CmpOp::Gt, CmpOp::Ge] {
        assert!(!decide("x", op, "y", Some(NumberOrder::Unordered)));
    }
    assert!(decide("x", CmpOp::Eq, "x", Some(NumberOrder::Less)));
    assert!(decide("x", CmpOp::Ne, "y", Some(NumberOrder::Equal)));
}

// ---------------------------------------------------------------------------
// Loading
// ---------------------------------------------------------------------------

#[test]
fn loaded_scripts_have_no_arguments() {
    let mut interpreter = Interpreter::new();
    assert_eq!(
        run_with(&mut interpreter, "load ok.script more words", &["outer"]),
        ["echo(loaded|[])", "echo(Alias 'greet' defined.)"]
    );
    assert_eq!(run_with(&mut interpreter, "greet you", &[]), ["echo(hi|you)"]);
}

#[test]
fn loading_can_fail() {
    assert_eq!(run("load"), ["! usage: load <file>"]);
    assert_eq!(run("load nowhere"), ["! could not read nowhere: no such file"]);
    assert_eq!(run("load again.script"), ["! alias recursion limit exceeded"]);
    let lines = run("load bad.script");
    assert_eq!(lines.len(), 1);
    assert!(lines[0].starts_with("! error parsing bad.script:  --> 2:5\n"), "{}", lines[0]);
    assert!(lines[0].ends_with("= expected block"), "{}", lines[0]);
}

#[test]
fn quiet_scripts_run_alike_everywhere() {
    let text = "alias a { echo $1; if $1 == x && 1 { alias b { c $1 } } }; a x; b y; load; a z";
    let contrary = Outside::new(
        |_path: &str| Ok("wrong".to_string()),
        |_left: &str, _right: &str| Some(NumberOrder::Unordered),
    );
    let mut host = Recorder::new(&contrary);
    if let Ok(script) = parse_script(text) {
        Interpreter::new().exec(&script, &[], &mut host);
    }
    let lines = notes(host.into_requests());
    assert_eq!(lines, run(text));
    assert_eq!(
        lines,
        [
            "echo(Alias 'a' defined.)",
            "echo(x)",
            "echo(Alias 'b' defined.)",
            "c(y)",
            "! usage: load <file>",
            "echo(z)",
        ]
    );
}

// ---------------------------------------------------------------------------
// Scripts that cannot be read
// ---------------------------------------------------------------------------

#[test]
fn errors_show_the_place() {
    assert_eq!(
        error_of("echo a; if"),
        " --> 1:11\n  |\n1 | echo a; if\n  |           ^---\n  |\n  = expected operand"
    );
}

#[test]
fn the_caret_stands_below_the_place() {
    let text = "a\n".repeat(9) + "\tb \"c\"\t} tail\nmore";
    assert_eq!(
        error_of(&text),
        "  --> 10:8\n   |\n10 | \tb \"c\"\t} tail\n   | \t     \t^---\n   |\n   \
= expected end of statement or script"
    );
    assert_eq!(
        error_of("if\nx"),
        " --> 1:3\n  |\n1 | if\u{240a}\n  |   ^---\n  |\n  = expected operand"
    );
}

#[test]
fn each_kind_of_error() {
    assert!(error_of("\"x\"").ends_with("= expected statement"));
    assert!(error_of("a; {").ends_with("= expected statement"));
    assert!(error_of("echo \"open").ends_with("= expected argument"));
    assert!(error_of("echo \"open\\\"").ends_with("= expected argument"));
    assert!(error_of("if == { }").ends_with("= expected operand"));
    assert!(error_of("if a == { }").ends_with("= expected operand"));
    assert!(error_of("if a && { }").ends_with("= expected operand"));
    assert!(error_of("if a b").ends_with("= expected block"));
    assert!(error_of("if a { b").ends_with("= expected end of statement or '}'"));
    assert!(error_of("a }").ends_with("= expected end of statement or script"));
    assert!(error_of("a { b } c").ends_with("= expected end of statement or script"));
}

#[test]
fn errors_count_lines_and_columns() {
    assert!(error_of("one\ntwo\n  }").starts_with(" --> 3:3\n"));
    assert!(error_of("caf\u{e9} \"").starts_with(" --> 1:6\n"));
}
