use std::cell::Cell;
use std::rc::Rc;
use vecfile::{Error, Fault, Storage, VecFile};

/// A store in memory that can be told to fault from some moment on.
struct Flaky {
    bytes: Vec<u8>,
    reads_fail: Rc<Cell<bool>>,
    writes_fail: Rc<Cell<bool>>,
}

struct Switch {
    reads_fail: Rc<Cell<bool>>,
    writes_fail: Rc<Cell<bool>>,
}

impl Switch {
    fn break_reads(&self) {
        self.reads_fail.set(true);
    }

    fn break_writes(&self) {
        self.writes_fail.set(true);
    }
}

fn flaky() -> (Flaky, Switch) {
    let reads_fail = Rc::new(Cell::new(false));
    let writes_fail = Rc::new(Cell::new(false));
    let switch = Switch { reads_fail: reads_fail.clone(), writes_fail: writes_fail.clone() };
    (Flaky { bytes: Vec::new(), reads_fail, writes_fail }, switch)
}

impl Storage for Flaky {
    fn create() -> Result<Self, Fault> {
        Ok(flaky().0)
    }

    fn read_at(&mut self, offset: u64, count: usize) -> Result<Vec<u8>, Fault> {
        if self.reads_fail.get() {
            return Err(Fault { code: 5 });
        }
        let start = (offset as usize).min(self.bytes.len());
        let end = start.saturating_add(count).min(self.bytes.len());
        Ok(self.bytes[start..end].to_vec())
    }

    fn write_at(&mut self, offset: u64, data: &[u8]) -> Result<(), Fault> {
        if self.writes_fail.get() {
            return Err(Fault { code: 28 });
        }
        let start = offset as usize;
        if self.bytes.len() < start + data.len() {
            self.bytes.resize(start + data.len(), 0);
        }
        self.bytes[start..start + data.len()].copy_from_slice(data);
        Ok(())
    }

    fn set_len(&mut self, len: u64) -> Result<(), Fault> {
        if self.writes_fail.get() {
            return Err(Fault { code: 28 });
        }
        self.bytes.resize(len as usize, 0);
        Ok(())
    }
}

fn filled(shadows: usize) -> (VecFile<u32, Flaky>, Switch) {
    let (primary, switch) = flaky();
    let mut vf: VecFile<u32, Flaky> = VecFile::new_with_path(primary).unwrap();
    vf.add_shadows(shadows).unwrap();
    for value in [10u32, 20, 30, 40, 50] {
        vf.try_push(&value).unwrap();
    }
    (vf, switch)
}

#[test]
fn a_read_fault_without_shadows_is_reported_and_harms_nothing() {
    let (mut vf, switch) = filled(0);
    switch.break_reads();
    assert_eq!(vf.try_get(2), Err(Error::Storage(Fault { code: 5 })));
    assert_eq!(vf.try_pop(), Err(Error::Storage(Fault { code: 5 })));
    assert_eq!(vf.len(), 5);
    switch.reads_fail.set(false);
    assert_eq!(vf.try_get(2), Ok(30));
    assert_eq!(vf.to_vec(), Ok(vec![10, 20, 30, 40, 50]));
}

#[test]
fn a_write_fault_without_shadows_breaks_the_instance() {
    let (mut vf, switch) = filled(0);
    switch.break_writes();
    assert_eq!(vf.try_push(&60), Err(Error::Storage(Fault { code: 28 })));
    assert_eq!(vf.len(), 5);
    switch.writes_fail.set(false);
    assert_eq!(vf.try_push(&60), Err(Error::IrrecoverableState));
    assert_eq!(vf.try_get(0), Err(Error::IrrecoverableState));
    assert_eq!(vf.try_set(0, &1), Err(Error::IrrecoverableState));
    assert_eq!(vf.try_pop(), Err(Error::IrrecoverableState));
    assert_eq!(vf.try_insert(0, &1), Err(Error::IrrecoverableState));
    assert_eq!(vf.try_remove(0), Err(Error::IrrecoverableState));
    assert_eq!(vf.reserve(1), Err(Error::IrrecoverableState));
    assert_eq!(vf.resize(9, &1), Err(Error::IrrecoverableState));
    assert_eq!(vf.try_extend_from_slice(&[1]), Err(Error::IrrecoverableState));
    assert_eq!(vf.add_shadows(1), Err(Error::IrrecoverableState));
    assert_eq!(vf.confirm_shadow_equivalence(), Err(Error::IrrecoverableState));
    assert_eq!(vf.to_vec(), Err(Error::IrrecoverableState));
    assert!(matches!(vf.try_clone(), Err(Error::IrrecoverableState)));
    assert_eq!(vf.len(), 5);
    assert_eq!(vf.cap(), 8);
}

#[test]
fn a_shadow_takes_over_when_the_primary_cannot_be_read() {
    let (mut vf, switch) = filled(2);
    switch.break_reads();
    assert_eq!(vf.try_get(3), Ok(40));
    assert_eq!(vf.shadow_count(), 2);
    assert_eq!(vf.to_vec(), Ok(vec![10, 20, 30, 40, 50]));
    assert_eq!(vf.confirm_shadow_equivalence(), Ok(true));
    assert_eq!(vf.try_pop(), Ok(50));
    assert_eq!(vf.shadow_count(), 2);
}

#[test]
fn a_shadow_takes_over_when_the_primary_cannot_be_written() {
    let (mut vf, switch) = filled(1);
    switch.break_writes();
    assert_eq!(vf.try_push(&60), Ok(()));
    assert_eq!(vf.try_set(0, &11), Ok(()));
    assert_eq!(vf.try_insert(1, &15), Ok(()));
    assert_eq!(vf.try_remove(2), Ok(20));
    assert_eq!(vf.shadow_count(), 1);
    assert_eq!(vf.to_vec(), Ok(vec![11, 15, 30, 40, 50, 60]));
    assert_eq!(vf.confirm_shadow_equivalence(), Ok(true));
}

#[test]
fn a_shadow_takes_over_when_the_primary_cannot_grow() {
    let (mut vf, switch) = filled(3);
    switch.break_writes();
    assert_eq!(vf.resize(20, &7), Ok(()));
    assert_eq!(vf.cap(), 32);
    assert_eq!(vf.len(), 20);
    assert_eq!(vf.shadow_count(), 3);
    assert_eq!(vf.try_get(4), Ok(50));
    assert_eq!(vf.try_get(19), Ok(7));
    assert_eq!(vf.confirm_shadow_equivalence(), Ok(true));
}

#[test]
fn shadows_made_later_hold_what_was_written_before() {
    let (mut vf, switch) = filled(0);
    vf.add_shadows(1).unwrap();
    assert_eq!(vf.confirm_shadow_equivalence(), Ok(true));
    switch.break_reads();
    switch.break_writes();
    assert_eq!(vf.to_vec(), Ok(vec![10, 20, 30, 40, 50]));
    assert_eq!(vf.try_push(&60), Ok(()));
    assert_eq!(vf.to_vec(), Ok(vec![10, 20, 30, 40, 50, 60]));
    assert_eq!(vf.shadow_count(), 1);
}

#[test]
fn an_export_that_faults_leaves_the_instance_alone() {
    let (mut vf, _switch) = filled(1);
    let (target, target_switch) = flaky();
    target_switch.break_writes();
    assert_eq!(vf.to_named_file(target), Err(Error::Storage(Fault { code: 28 })));
    assert_eq!(vf.to_vec(), Ok(vec![10, 20, 30, 40, 50]));
    assert_eq!(vf.shadow_count(), 1);
}

#[test]
fn an_export_moves_the_instance_to_the_new_store() {
    let (mut vf, switch) = filled(0);
    let (target, _target_switch) = flaky();
    assert_eq!(vf.to_named_file(target), Ok(()));
    switch.break_reads();
    switch.break_writes();
    assert_eq!(vf.try_push(&60), Ok(()));
    assert_eq!(vf.to_vec(), Ok(vec![10, 20, 30, 40, 50, 60]));
}

/// A store in memory whose next reads fault, as many as are set.
struct Stubborn {
    bytes: Vec<u8>,
    reads_to_fail: Rc<Cell<u32>>,
}

impl Storage for Stubborn {
    fn create() -> Result<Self, Fault> {
        Ok(Stubborn { bytes: Vec::new(), reads_to_fail: Rc::new(Cell::new(0)) })
    }

    fn read_at(&mut self, offset: u64, count: usize) -> Result<Vec<u8>, Fault> {
        let left = self.reads_to_fail.get();
        if left > 0 {
            self.reads_to_fail.set(left - 1);
            return Err(Fault { code: 5 });
        }
        let start = (offset as usize).min(self.bytes.len());
        let end = start.saturating_add(count).min(self.bytes.len());
        Ok(self.bytes[start..end].to_vec())
    }

    fn write_at(&mut self, offset: u64, data: &[u8]) -> Result<(), Fault> {
        let start = offset as usize;
        if self.bytes.len() < start + data.len() {
            self.bytes.resize(start + data.len(), 0);
        }
        self.bytes[start..start + data.len()].copy_from_slice(data);
        Ok(())
    }

    fn set_len(&mut self, len: u64) -> Result<(), Fault> {
        self.bytes.resize(len as usize, 0);
        Ok(())
    }
}

fn stubborn(shadows: usize) -> (VecFile<u32, Stubborn>, Rc<Cell<u32>>) {
    let reads_to_fail = Rc::new(Cell::new(0));
    let primary = Stubborn { bytes: Vec::new(), reads_to_fail: reads_to_fail.clone() };
    let mut vf: VecFile<u32, Stubborn> = VecFile::new_with_path(primary).unwrap();
    vf.try_extend_from_slice(&[10, 20, 30]).unwrap();
    vf.add_shadows(shadows).unwrap();
    (vf, reads_to_fail)
}

#[test]
fn a_primary_is_given_five_copies_before_it_is_dropped() {
    let (mut vf, reads_to_fail) = stubborn(1);
    reads_to_fail.set(4);
    assert_eq!(vf.add_shadows(1), Ok(()));
    assert_eq!(reads_to_fail.get(), 0);
    assert_eq!(vf.shadow_count(), 2);
    reads_to_fail.set(1);
    assert_eq!(vf.try_get(0), Ok(10));
    assert_eq!(reads_to_fail.get(), 0);
    assert_eq!(vf.shadow_count(), 2);
    assert_eq!(vf.confirm_shadow_equivalence(), Ok(true));

    let (mut vf, reads_to_fail) = stubborn(1);
    reads_to_fail.set(5);
    assert_eq!(vf.add_shadows(1), Ok(()));
    assert_eq!(reads_to_fail.get(), 0);
    assert_eq!(vf.shadow_count(), 1);
    reads_to_fail.set(1000);
    assert_eq!(vf.to_vec(), Ok(vec![10, 20, 30]));
}

#[test]
fn a_shadow_cannot_be_made_of_a_primary_that_cannot_be_read() {
    let (mut vf, reads_to_fail) = stubborn(0);
    reads_to_fail.set(4);
    assert_eq!(vf.add_shadows(1), Ok(()));
    assert_eq!(vf.shadow_count(), 1);
    vf.clear_shadows();
    reads_to_fail.set(5);
    assert_eq!(vf.add_shadows(1), Err(Error::Storage(Fault { code: 5 })));
    assert_eq!(vf.shadow_count(), 0);
    assert_eq!(vf.to_vec(), Ok(vec![10, 20, 30]));

    let (mut vf, reads_to_fail) = stubborn(0);
    reads_to_fail.set(5);
    let spare = Stubborn::create().unwrap();
    assert_eq!(vf.to_named_file(spare), Err(Error::Storage(Fault { code: 5 })));
    reads_to_fail.set(4);
    let spare = Stubborn::create().unwrap();
    assert_eq!(vf.to_named_file(spare), Ok(()));
    reads_to_fail.set(1000);
    assert_eq!(vf.to_vec(), Ok(vec![10, 20, 30]));
}
