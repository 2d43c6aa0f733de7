use encrypt_config::{Config, ConfigError, NormalSource, Source};

#[derive(Clone, Debug, PartialEq)]
struct Normal {
    value: i32,
}

impl Source for Normal {
    fn load_or_default(_key: u64) -> Self {
        Normal { value: 0 }
    }

    fn save(&self) -> Result<(), ConfigError> {
        Ok(())
    }

    fn clone_value(&self) -> Self {
        Normal { value: self.value }
    }
}

impl NormalSource for Normal {
}

const NORMAL: u64 = 7;

// A write claim while a read claim is outstanding is a caller bug; the
// claim discipline reports the refusal at once, as an error value.
#[test]
fn concurrent_test_write_while_reading() {
    let mut cfg: Config<Normal> = Config::default();
    let normal_ref = cfg.get(NORMAL).unwrap();
    let refused = cfg.get_mut(NORMAL);
    assert!(matches!(refused, Err(ConfigError::ReadHeld)));
    cfg.release(normal_ref);
}

#[test]
fn write_while_writing() {
    let mut cfg: Config<Normal> = Config::default();
    let normal_mut = cfg.get_mut(NORMAL).unwrap();
    let refused = cfg.get_mut(NORMAL);
    assert!(matches!(refused, Err(ConfigError::WriteHeld)));
    cfg.release_mut(normal_mut);
}

#[test]
fn read_while_reading() {
    let mut cfg: Config<Normal> = Config::default();
    let normal_ref1 = cfg.get(NORMAL).unwrap();
    let normal_ref2 = cfg.get(NORMAL).unwrap();
    cfg.release(normal_ref1);
    cfg.release(normal_ref2);
}

// Two claimants of one entry, as two threads sharing the cache would be:
// both shared claims are granted and both observe the freshly loaded value.
#[test]
fn multi_thread() {
    let mut cfg: Config<Normal> = Config::default();
    let first = cfg.get(NORMAL).unwrap();
    let second = cfg.get(NORMAL).unwrap();
    assert_eq!(first.value().value, 0);
    assert_eq!(second.value().value, 0);
    cfg.release(first);
    cfg.release(second);
}
