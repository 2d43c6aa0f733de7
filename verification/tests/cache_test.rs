use encrypt_config::{Config, ConfigError, Source};

#[derive(Clone, Debug, PartialEq)]
enum AppCfg {
    Counter { value: i32 },
    Name { text: String },
    Brittle { value: i32 },
}

const COUNTER: u64 = 1;
const NAME: u64 = 2;
const BRITTLE: u64 = 3;

impl Source for AppCfg {
    fn load_or_default(key: u64) -> Self {
        if key == NAME {
            AppCfg::Name { text: String::new() }
        } else if key == BRITTLE {
            AppCfg::Brittle { value: 0 }
        } else {
            AppCfg::Counter { value: 0 }
        }
    }

    fn save(&self) -> Result<(), ConfigError> {
        // the brittle flavor stands for a source whose persist fails
        match self {
            AppCfg::Brittle { .. } => Err(ConfigError::IoError),
            _ => Ok(()),
        }
    }

    fn clone_value(&self) -> Self {
        self.clone()
    }
}

fn counter_value(cfg: &AppCfg) -> i32 {
    match cfg {
        AppCfg::Counter { value } => *value,
        _ => panic!("not a counter"),
    }
}

// default 0; mutate to 42 through the exclusive guard; the next shared
// guard observes 42 without any reload
#[test]
fn counter_scenario() {
    let mut cfg: Config<AppCfg> = Config::new();
    let g = cfg.get(COUNTER).unwrap();
    assert_eq!(counter_value(g.value()), 0);
    cfg.release(g);

    let mut m = cfg.get_mut(COUNTER).unwrap();
    *m.value_mut() = AppCfg::Counter { value: 42 };
    cfg.release_mut(m);

    let g = cfg.get(COUNTER).unwrap();
    assert_eq!(counter_value(g.value()), 42);
    cfg.release(g);
}

// mutate to 42, tear the cache down: the source's save runs exactly once,
// with the mutated value
#[test]
fn teardown_flushes_dirty_value() {
    let mut cfg: Config<AppCfg> = Config::new();
    let mut m = cfg.get_mut(COUNTER).unwrap();
    *m.value_mut() = AppCfg::Counter { value: 42 };
    cfg.release_mut(m);

    let report = cfg.close();
    assert_eq!(report.len(), 1);
    assert_eq!(report[0].0, COUNTER);
    assert_eq!(report[0].1, AppCfg::Counter { value: 42 });
    assert!(report[0].2);
}

// an exclusive guard that was never mutably dereferenced leaves the entry
// clean: teardown writes nothing back
#[test]
fn no_spurious_write_back() {
    let mut cfg: Config<AppCfg> = Config::new();
    let m = cfg.get_mut(COUNTER).unwrap();
    assert_eq!(counter_value(m.value()), 0);
    cfg.release_mut(m);

    let report = cfg.close();
    assert_eq!(report.len(), 0);
}

// eviction of a clean, merely read entry writes nothing back either
#[test]
fn teardown_skips_clean_entries() {
    let mut cfg: Config<AppCfg> = Config::new();
    let g = cfg.get(COUNTER).unwrap();
    cfg.release(g);
    let report = cfg.close();
    assert_eq!(report.len(), 0);
}

// a failed write-back is reported in the teardown report, not raised
#[test]
fn write_back_failure_is_reported() {
    let mut cfg: Config<AppCfg> = Config::new();
    let mut m = cfg.get_mut(BRITTLE).unwrap();
    *m.value_mut() = AppCfg::Brittle { value: 9 };
    cfg.release_mut(m);

    let report = cfg.close();
    assert_eq!(report.len(), 1);
    assert_eq!(report[0].0, BRITTLE);
    assert!(!report[0].2);
}

// taking hands the mutated value over, discards the dirty state without
// write-back, and leaves the cache with no memory of the value
#[test]
fn take_removes_ownership() {
    let mut cfg: Config<AppCfg> = Config::new();
    let mut m = cfg.get_mut(COUNTER).unwrap();
    *m.value_mut() = AppCfg::Counter { value: 42 };
    cfg.release_mut(m);

    let taken = cfg.take(COUNTER).unwrap();
    assert_eq!(taken, AppCfg::Counter { value: 42 });

    // a brand-new entry is materialised from the source
    let g = cfg.get(COUNTER).unwrap();
    assert_eq!(counter_value(g.value()), 0);
    cfg.release(g);

    // and nothing of the taken value was written back
    let report = cfg.close();
    assert_eq!(report.len(), 0);
}

// taking an absent key falls back to the source and caches nothing
#[test]
fn take_absent_loads_fresh() {
    let mut cfg: Config<AppCfg> = Config::new();
    let taken = cfg.take(COUNTER).unwrap();
    assert_eq!(taken, AppCfg::Counter { value: 0 });
    let report = cfg.close();
    assert_eq!(report.len(), 0);
}

// take is refused while any claim is outstanding
#[test]
fn take_refused_under_claims() {
    let mut cfg: Config<AppCfg> = Config::new();
    let g = cfg.get(COUNTER).unwrap();
    assert!(matches!(cfg.take(COUNTER), Err(ConfigError::ReadHeld)));
    cfg.release(g);
    let m = cfg.get_mut(COUNTER).unwrap();
    assert!(matches!(cfg.take(COUNTER), Err(ConfigError::WriteHeld)));
    cfg.release_mut(m);
}

// 31 concurrent shared claims are the bound: the 32nd is refused at once
#[test]
fn reader_bound() {
    let mut cfg: Config<AppCfg> = Config::new();
    let mut guards = Vec::new();
    for _ in 0..31 {
        guards.push(cfg.get(COUNTER).unwrap());
    }
    assert!(matches!(cfg.get(COUNTER), Err(ConfigError::TooManyReaders)));
    for g in guards {
        cfg.release(g);
    }
    // with every claim given back the entry is claimable again
    let g = cfg.get(COUNTER).unwrap();
    cfg.release(g);
}

// save on an absent key persists at once and caches a clean entry; save on
// a present key replaces the value and marks it dirty
#[test]
fn save_scenarios() {
    let mut cfg: Config<AppCfg> = Config::new();
    cfg.save(COUNTER, AppCfg::Counter { value: 5 }).unwrap();
    let g = cfg.get(COUNTER).unwrap();
    assert_eq!(counter_value(g.value()), 5);
    cfg.release(g);
    // the directly persisted entry is clean: teardown has nothing to do
    let report = cfg.close();
    assert_eq!(report.len(), 0);

    let mut cfg: Config<AppCfg> = Config::new();
    let g = cfg.get(COUNTER).unwrap();
    cfg.release(g);
    cfg.save(COUNTER, AppCfg::Counter { value: 6 }).unwrap();
    let report = cfg.close();
    assert_eq!(report.len(), 1);
    assert_eq!(report[0].1, AppCfg::Counter { value: 6 });
}

// save on an absent key whose source cannot persist reports the failure
// and caches nothing
#[test]
fn save_absent_failure() {
    let mut cfg: Config<AppCfg> = Config::new();
    let refused = cfg.save(BRITTLE, AppCfg::Brittle { value: 1 });
    assert!(matches!(refused, Err(ConfigError::IoError)));
    let report = cfg.close();
    assert_eq!(report.len(), 0);
}

// save is refused while a claim is outstanding
#[test]
fn save_refused_under_claims() {
    let mut cfg: Config<AppCfg> = Config::new();
    let g = cfg.get(COUNTER).unwrap();
    let refused = cfg.save(COUNTER, AppCfg::Counter { value: 1 });
    assert!(matches!(refused, Err(ConfigError::ReadHeld)));
    cfg.release(g);
}

// invalidating a dirty entry writes it back and leaves a stale placeholder
// that the next access reloads in place
#[test]
fn invalidate_reloads() {
    let mut cfg: Config<AppCfg> = Config::new();
    let mut m = cfg.get_mut(COUNTER).unwrap();
    *m.value_mut() = AppCfg::Counter { value: 42 };
    cfg.release_mut(m);

    assert_eq!(cfg.invalidate(COUNTER), Ok(Some(true)));

    // the placeholder is reloaded from the source, not from the stale value
    let g = cfg.get(COUNTER).unwrap();
    assert_eq!(counter_value(g.value()), 0);
    cfg.release(g);

    // a clean entry is invalidated without write-back
    assert_eq!(cfg.invalidate(COUNTER), Ok(None));
    assert!(matches!(
        cfg.invalidate(NAME),
        Err(ConfigError::ConfigNotFound { key: NAME })
    ));
}

// a failed write-back at invalidation is reported in the outcome, and the
// stale placeholder still reloads afterwards
#[test]
fn invalidate_reports_failed_write_back() {
    let mut cfg: Config<AppCfg> = Config::new();
    let mut m = cfg.get_mut(BRITTLE).unwrap();
    *m.value_mut() = AppCfg::Brittle { value: 5 };
    cfg.release_mut(m);
    assert_eq!(cfg.invalidate(BRITTLE), Ok(Some(false)));
    let g = cfg.get(BRITTLE).unwrap();
    assert_eq!(g.value(), &AppCfg::Brittle { value: 0 });
    cfg.release(g);
}

#[test]
fn error_messages() {
    assert!(!ConfigError::WriteHeld.message().is_empty());
    assert!(!ConfigError::TooManyReaders.message().is_empty());
    assert!(!ConfigError::ConfigNotFound { key: 1 }.message().is_empty());
}

// the claims of a tuple request are granted in declared order, one per key
#[test]
fn many_keys() {
    let mut cfg: Config<AppCfg> = Config::new();
    let guards = cfg.get_many(&vec![COUNTER, NAME]).unwrap();
    assert_eq!(guards.len(), 2);
    assert_eq!(guards[0].key(), COUNTER);
    assert_eq!(guards[1].key(), NAME);
    assert_eq!(counter_value(guards[0].value()), 0);
    assert_eq!(guards[1].value(), &AppCfg::Name { text: String::new() });
    for g in guards {
        cfg.release(g);
    }

    let mut guards = cfg.get_mut_many(&vec![COUNTER, NAME]).unwrap();
    *guards[0].value_mut() = AppCfg::Counter { value: 3 };
    for g in guards {
        cfg.release_mut(g);
    }
    let g = cfg.get(COUNTER).unwrap();
    assert_eq!(counter_value(g.value()), 3);
    cfg.release(g);
}

// a shared tuple request may repeat a key; an exclusive one must not
#[test]
fn many_duplicates() {
    let mut cfg: Config<AppCfg> = Config::new();
    let guards = cfg.get_many(&vec![COUNTER, COUNTER]).unwrap();
    assert_eq!(guards.len(), 2);
    for g in guards {
        cfg.release(g);
    }
    let refused = cfg.get_mut_many(&vec![COUNTER, COUNTER]);
    assert!(matches!(refused, Err(ConfigError::WriteHeld)));
    // the refusal left no claim behind
    let m = cfg.get_mut(COUNTER).unwrap();
    cfg.release_mut(m);
}

// a refused tuple request gives every already-granted claim back
#[test]
fn many_rollback() {
    let mut cfg: Config<AppCfg> = Config::new();
    let held = cfg.get_mut(NAME).unwrap();
    let refused = cfg.get_many(&vec![COUNTER, NAME]);
    assert!(matches!(refused, Err(ConfigError::WriteHeld)));
    cfg.release_mut(held);
    // the counter claim taken for the refused request was given back
    let m = cfg.get_mut(COUNTER).unwrap();
    cfg.release_mut(m);
}

// taking a tuple removes every listed entry, in declared order
#[test]
fn take_many_keys() {
    let mut cfg: Config<AppCfg> = Config::new();
    let mut m = cfg.get_mut(COUNTER).unwrap();
    *m.value_mut() = AppCfg::Counter { value: 8 };
    cfg.release_mut(m);

    let vs = cfg.take_many(&vec![COUNTER, NAME]).unwrap();
    assert_eq!(vs.len(), 2);
    assert_eq!(vs[0], AppCfg::Counter { value: 8 });
    assert_eq!(vs[1], AppCfg::Name { text: String::new() });

    let held = cfg.get(NAME).unwrap();
    assert!(matches!(
        cfg.take_many(&vec![COUNTER, NAME]),
        Err(ConfigError::ReadHeld)
    ));
    cfg.release(held);
}
