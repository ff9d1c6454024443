use meadow::eval::native::{native_fs, native_process, Call, PairOp, PathOp};
use meadow::eval::show::plain;
use meadow::eval::term::{names, JUST, NONE};
use meadow::eval::value::Value;
use meadow::glade::request::{Reading, Step};
use std::rc::Rc;

fn text(s: &str) -> Value {
    Value::Str(Rc::new(s.to_string()))
}

fn tuple(xs: Vec<Value>) -> Value {
    Value::Tuple(Rc::new(xs))
}

fn list(xs: Vec<Value>) -> Value {
    Value::List(Rc::new(xs))
}

#[test]
fn an_operation_on_files_is_read_from_its_name_and_argument() {
    match native_fs("readToString", &text("a.txt"), &names()) {
        Ok(Call::Path(PathOp::ReadToString, p)) => assert_eq!(p.as_str(), "a.txt"),
        _ => panic!("not a read"),
    }
    match native_fs("rename", &tuple(vec![text("a"), text("b")]), &names()) {
        Ok(Call::Pair(PairOp::Rename, a, b)) => assert_eq!((a.as_str(), b.as_str()), ("a", "b")),
        _ => panic!("not a rename"),
    }
    let e = native_fs("exists", &Value::Int(3), &names()).err().unwrap();
    assert_eq!(plain(&e.msg).unwrap(), "Fs.exists: expected a String, got 3");
    let e = native_fs("copy", &text("a"), &names()).err().unwrap();
    assert_eq!(plain(&e.msg).unwrap(), "Fs.copy: expected a (String, String) pair, got \"a\"");
    let e = native_fs("levitate", &text("a"), &names()).err().unwrap();
    assert_eq!(plain(&e.msg).unwrap(), "unhandled effect Fs.levitate");
}

#[test]
fn a_command_is_read_from_its_parts() {
    let command = |cwd: Value| {
        tuple(vec![
            text("ls"),
            list(vec![text("-l")]),
            cwd,
            list(vec![tuple(vec![text("K"), text("v")])]),
        ])
    };
    let just = Value::Ctor(JUST, Rc::new(vec![text("/tmp")]));
    match native_process("spawn", &command(just), &names()) {
        Ok(Call::Spawn(c)) => {
            assert_eq!(c.program.as_str(), "ls");
            assert_eq!(c.args.len(), 1);
            assert_eq!(c.cwd.unwrap().as_str(), "/tmp");
            assert_eq!((c.vars[0].0.as_str(), c.vars[0].1.as_str()), ("K", "v"));
        }
        _ => panic!("not a spawn"),
    }
    match native_process("status", &command(Value::Ctor(NONE, Rc::new(vec![]))), &names()) {
        Ok(Call::Status(c)) => assert!(c.cwd.is_none()),
        _ => panic!("not a status"),
    }
    let e = native_process("spawn", &command(Value::Unit), &names()).err().unwrap();
    assert_eq!(plain(&e.msg).unwrap(), "Process.spawn: expected a Maybe String, got ()");
    let e = native_process("spawn", &Value::Unit, &names()).err().unwrap();
    assert_eq!(plain(&e.msg).unwrap(), "Process.spawn: expected a Command, got ()");
    assert!(matches!(native_process("exit", &Value::Int(3), &names()), Ok(Call::Exit(3))));
    assert!(matches!(native_process("currentPid", &Value::Unit, &names()), Ok(Call::CurrentPid)));
    let e = native_process("fly", &Value::Unit, &names()).err().unwrap();
    assert_eq!(plain(&e.msg).unwrap(), "unhandled effect Process.fly");
}

#[test]
fn reading_exactly_so_many_bytes() {
    let mut r = Reading::new(3);
    assert!(matches!(r.next(false), Step::Ask(3)));
    assert!(r.got(b"ab"));
    assert!(matches!(r.next(false), Step::Ask(1)));
    assert!(matches!(r.next(true), Step::Nothing));
    assert!(r.got(b"c"));
    assert!(matches!(r.next(false), Step::Text(s) if s == "abc"));
    assert!(matches!(Reading::new(0).next(true), Step::Text(s) if s.is_empty()));
    assert!(matches!(Reading::new(-1).next(false), Step::Text(s) if s.is_empty()));
}
