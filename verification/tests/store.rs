use flow_arena::cube::Cube;
use flow_arena::entity::{Entity, ProcessStatus};
use flow_arena::model::{update, Msg};
use flow_arena::time::TimeLog;

#[test]
fn time_log() {
    let u_dur = 200;
    let mut time = TimeLog::new();
    time.set_start(1_000);
    time.set_end(1_000 + u_dur + 50);
    let dur = time.length();
    assert!(dur > u_dur);
    assert_eq!(dur, 250);
}

#[test]
fn time_log_defaults_to_zero_length() {
    let mut time = TimeLog::new();
    assert_eq!(time.length(), 0);
    time.set_start(500);
    assert_eq!(time.length(), 0);
    time.set_end(400);
    assert_eq!(time.length(), 0);
    time.set_end(900);
    assert_eq!(time.length(), 400);
}

#[test]
fn entity_accessors() {
    let mut e = Entity::with_id(3);
    assert_eq!(e.id(), 3);
    assert_eq!(e.face().as_str(), "");
    assert_eq!(e.bubble().as_str(), "");
    assert!(matches!(e.process(), ProcessStatus::New));
    e.set_face(String::from("title"));
    e.set_bubble(String::from("notes"));
    e.set_process(ProcessStatus::Marching);
    assert_eq!(e.face().as_str(), "title");
    assert_eq!(e.bubble().as_str(), "notes");
    assert!(matches!(e.process(), ProcessStatus::Marching));
}

#[test]
fn process_status_names() {
    assert_eq!(ProcessStatus::Done.type_str(), "Done");
    assert_eq!(ProcessStatus::Marching.type_str(), "Marching");
    assert_eq!(ProcessStatus::Pending.type_str(), "Pending");
    assert_eq!(ProcessStatus::Planning.type_str(), "Planning");
    assert_eq!(ProcessStatus::New.type_str(), "New");
}

#[test]
fn process_status_reflect() {
    for status in ProcessStatus::vec_all() {
        assert_eq!(ProcessStatus::reflect(&status.type_str()), status);
    }
    assert_eq!(ProcessStatus::reflect("nonsense"), ProcessStatus::New);
}

#[test]
fn process_status_vec_all_order() {
    assert_eq!(
        ProcessStatus::vec_all(),
        vec![
            ProcessStatus::New,
            ProcessStatus::Planning,
            ProcessStatus::Pending,
            ProcessStatus::Marching,
            ProcessStatus::Done,
        ]
    );
}

#[test]
fn process_status_type_src() {
    assert_eq!(
        ProcessStatus::Pending.type_src(),
        "static/icons/Process/Pending.svg"
    );
}

#[test]
fn cube_grow_get_erase() {
    let mut cube = Cube::new();
    assert!(cube.empty());
    let a = cube.grow();
    let b = cube.grow();
    assert!(!cube.empty());
    cube.tiptoe(a);
    cube.chain(b, a);
    assert_eq!(cube.relation.order, vec![a, b]);
    assert_eq!(cube.get(a).id(), a);
    cube.get_mut(b).set_face(String::from("child"));
    assert_eq!(cube.get(b).face().as_str(), "child");
    cube.erase(a);
    assert_eq!(cube.relation.order, vec![b]);
    assert_eq!(cube.entries.len(), 1);
    // erasing an absent id changes nothing
    cube.erase(a);
    assert_eq!(cube.entries.len(), 1);
}

#[test]
fn cube_chain_inserts_after_host() {
    let mut cube = Cube::new();
    let a = cube.grow();
    let b = cube.grow();
    let c = cube.grow();
    cube.tiptoe(a);
    cube.chain(b, a);
    cube.chain(c, a);
    // c enters right after its host, before its sibling
    assert_eq!(cube.relation.order, vec![a, c, b]);
}

#[test]
fn model_update_steps() {
    let mut cube = Cube::new();
    let mut buffer = String::new();
    assert!(update(&mut cube, &mut buffer, Msg::UpdateBuffer(String::from("tracer"))));
    assert_eq!(buffer, "tracer");
    assert!(update(&mut cube, &mut buffer, Msg::NewCube));
    assert_eq!(cube.name, "tracer");
    assert_eq!(buffer, "");
    assert!(update(&mut cube, &mut buffer, Msg::Focus));
    assert_eq!(cube.name, "tracer");
}
