use encrypt_config::{Config, ConfigError, NormalSource, Source};

#[derive(Clone, Debug, PartialEq)]
struct NormalConfig {
    value: i32,
}

impl Source for NormalConfig {
    fn load_or_default(_key: u64) -> Self {
        NormalConfig { value: 0 }
    }

    fn save(&self) -> Result<(), ConfigError> {
        Ok(())
    }

    fn clone_value(&self) -> Self {
        NormalConfig { value: self.value }
    }
}

impl NormalSource for NormalConfig {
}

const NORMAL: u64 = 1;

#[test]
fn normal_test() {
    let mut cfg: Config<NormalConfig> = Config::default();
    {
        let normal = cfg.get(NORMAL).unwrap();
        assert_eq!(normal.value().value, 0);
        let many = cfg.get_many(&vec![NORMAL]).unwrap();
        assert_eq!(many[0].value().value, 0);
        for g in many {
            cfg.release(g);
        }
        cfg.release(normal);
    }
    {
        let mut normal = cfg.get_mut(NORMAL).unwrap();
        normal.value_mut().value = 42;
        assert_eq!(normal.value().value, 42);
        cfg.release_mut(normal);
    }
}

// A write claim while a read claim is outstanding is a caller bug; the
// claim discipline reports the refusal at once, as an error value.
#[test]
fn normal_test_write_while_reading() {
    let mut cfg: Config<NormalConfig> = Config::default();
    let normal_ref = cfg.get(NORMAL).unwrap();
    let refused = cfg.get_mut(NORMAL);
    assert!(matches!(refused, Err(ConfigError::ReadHeld)));
    cfg.release(normal_ref);
}
