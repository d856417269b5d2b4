use midenc::component_init::{to_masm_component, DataSegment, InitInstruction};
use miden_core::crypto::hash::Rpo256;
use miden_core::Felt;

fn digest_of(elements: &[u64]) -> (u64, u64, u64, u64) {
    let felts: Vec<Felt> = elements.iter().map(|x| Felt::new(*x)).collect();
    let word = Rpo256::hash_elements(&felts);
    let e = word.as_elements();
    (e[0].as_int(), e[1].as_int(), e[2].as_int(), e[3].as_int())
}

#[test]
fn component_without_globals_or_data_has_no_init_and_no_entrypoint() {
    let c = to_masm_component("ns:comp@1.0.0", false, &[], 16, 4096, 8, None);
    assert!(c.init.is_none());
    assert!(c.entrypoint.is_none());
    assert!(c.rodata.is_empty());
    assert_eq!(c.heap_base, 16 + 4096);
    assert_eq!(c.stack_pointer, 8);
    assert_eq!(c.modules.len(), 1);
    assert_eq!(c.modules[0].path, "ns:comp@1.0.0");
    assert!(c.modules[0].procedures.is_empty());
}

#[test]
fn data_segments_give_one_rodata_entry_each_and_an_init_procedure() {
    let segments = vec![
        DataSegment { start: 64, size_in_words: 1, elements: vec![1, 2, 3, 4] },
        DataSegment { start: 128, size_in_words: 2, elements: vec![5, 6, 7, 8, 9, 0, 0, 0] },
    ];
    let c = to_masm_component("ns:comp@1.0.0", false, &segments, 0, 65536, 0, None);
    assert_eq!(c.rodata.len(), 2);
    assert_eq!(c.rodata[0].digest, digest_of(&[1, 2, 3, 4]));
    assert_eq!(c.rodata[1].digest, digest_of(&[5, 6, 7, 8, 9, 0, 0, 0]));
    assert_ne!(c.rodata[0].digest, c.rodata[1].digest);
    assert_eq!(c.rodata[1].start, 128);
    assert_eq!(c.rodata[1].size_in_words, 2);
    let init = c.init.as_ref().unwrap();
    assert_eq!(init.path, "ns:comp@1.0.0");
    assert_eq!(init.name, "init");
    let proc0 = &c.modules[0].procedures[0];
    assert_eq!(proc0.name, "init");
    assert!(proc0.public);
    assert_eq!(proc0.body_start[0], InitInstruction::PushU32(65536));
    assert_eq!(proc0.body_start[2], InitInstruction::ExecHeapInit);
    let (a, b, cc, d) = digest_of(&[1, 2, 3, 4]);
    assert_eq!(proc0.body_start[4], InitInstruction::PushWord(a, b, cc, d));
    assert_eq!(proc0.body_start.len(), 4 + 8 * 2);
}

#[test]
fn globals_alone_need_an_init_procedure() {
    let c = to_masm_component("ns:comp@1.0.0", true, &[], 0, 4096, 4, None);
    assert!(c.init.is_some());
    assert_eq!(c.modules[0].procedures[0].body_start.len(), 4);
}

#[test]
fn entrypoints_inside_the_wrapper_component_are_paths_within_it() {
    let entry = Some(("app".to_string(), "main".to_string()));
    let c = to_masm_component("root_ns:root@1.0.0", false, &[], 0, 4096, 0, entry);
    let e = c.entrypoint.unwrap();
    assert_eq!(e.path, "root_ns:root@1.0.0::app");
    assert_eq!(e.name, "main");
    let entry = Some(("ns:comp@1.0.0".to_string(), "run".to_string()));
    let c = to_masm_component("ns:comp@1.0.0", false, &[], 0, 4096, 0, entry);
    let e = c.entrypoint.unwrap();
    assert_eq!(e.path, "ns:comp@1.0.0");
    assert_eq!(e.name, "run");
}
