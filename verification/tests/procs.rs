use kernel_plugins::proc_manager::ProcManager;

#[test]
fn process_table_insert_change_delete() {
    let mut m: ProcManager<Vec<u8>> = ProcManager::new();
    assert!(m.get_mut(1).is_none());
    m.insert(1, vec![1, 2]);
    m.insert(2, vec![3]);
    if let Some(p) = m.get_mut(1) {
        p.push(9);
    }
    assert_eq!(m.get_mut(1).map(|p| p.clone()), Some(vec![1, 2, 9]));
    m.insert(1, vec![]);
    assert_eq!(m.get_mut(1).map(|p| p.len()), Some(0));
    m.delete(1);
    assert!(m.get_mut(1).is_none());
    assert_eq!(m.get_mut(2).map(|p| p.clone()), Some(vec![3]));
}
