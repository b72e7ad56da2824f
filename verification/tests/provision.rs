use std::sync::atomic::{AtomicUsize, Ordering};
use vecfile::vec_file::tested_store;
use vecfile::{Error, Fault, Storage, VecFile};

/// The number of stores that `create` still refuses to make.
static REFUSALS: AtomicUsize = AtomicUsize::new(0);

/// The number of times `create` was asked.
static ASKED: AtomicUsize = AtomicUsize::new(0);

/// A store in memory whose provisioning can be made to fail.
struct Scarce {
    bytes: Vec<u8>,
}

impl Storage for Scarce {
    fn create() -> Result<Self, Fault> {
        ASKED.fetch_add(1, Ordering::SeqCst);
        let left = REFUSALS.load(Ordering::SeqCst);
        if left > 0 {
            REFUSALS.store(left - 1, Ordering::SeqCst);
            return Err(Fault { code: 24 });
        }
        Ok(Scarce { bytes: Vec::new() })
    }

    fn read_at(&mut self, offset: u64, count: usize) -> Result<Vec<u8>, Fault> {
        let start = (offset as usize).min(self.bytes.len());
        let end = start.saturating_add(count).min(self.bytes.len());
        Ok(self.bytes[start..end].to_vec())
    }

    fn write_at(&mut self, offset: u64, data: &[u8]) -> Result<(), Fault> {
        let start = offset as usize;
        if self.bytes.len() < start + data.len() {
            self.bytes.resize(start + data.len(), 0);
        }
        self.bytes[start..start + data.len()].copy_from_slice(data);
        Ok(())
    }

    fn set_len(&mut self, len: u64) -> Result<(), Fault> {
        self.bytes.resize(len as usize, 0);
        Ok(())
    }
}

#[test]
fn provisioning_is_tried_a_bounded_number_of_times() {
    REFUSALS.store(4, Ordering::SeqCst);
    ASKED.store(0, Ordering::SeqCst);
    let made: Result<Scarce, Error> = tested_store();
    assert!(made.is_ok());
    assert_eq!(ASKED.load(Ordering::SeqCst), 5);

    REFUSALS.store(5, Ordering::SeqCst);
    ASKED.store(0, Ordering::SeqCst);
    let made: Result<Scarce, Error> = tested_store();
    assert!(matches!(made, Err(Error::Storage(Fault { code: 24 }))));
    assert_eq!(ASKED.load(Ordering::SeqCst), 5);

    REFUSALS.store(0, Ordering::SeqCst);
    let mut vf: VecFile<u16, Scarce> = VecFile::new().unwrap();
    vf.try_push(&3).unwrap();
    REFUSALS.store(1000, Ordering::SeqCst);
    assert_eq!(vf.add_shadows(2), Err(Error::Storage(Fault { code: 24 })));
    assert_eq!(vf.shadow_count(), 0);
    assert_eq!(vf.try_get(0), Ok(3));
    assert!(matches!(
        VecFile::<u16, Scarce>::new(),
        Err(Error::Storage(Fault { code: 24 }))
    ));
    REFUSALS.store(0, Ordering::SeqCst);
    assert_eq!(vf.add_shadows(2), Ok(()));
    assert_eq!(vf.shadow_count(), 2);
    assert_eq!(vf.confirm_shadow_equivalence(), Ok(true));
}
