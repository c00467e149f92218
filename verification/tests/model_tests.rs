use gemsleuth::model::{Record, RecordError, Settings, SettingsError};

#[test]
fn settings_default_matches_game() {
    let s = Settings::default();
    assert_eq!((s.colors, s.slots, s.repeats), (6, 4, true));
}

#[test]
fn settings_validate_bounds() {
    assert!(Settings { colors: 4, slots: 3, repeats: true }.validate().is_ok());
    assert!(Settings { colors: 8, slots: 6, repeats: true }.validate().is_ok());
    assert_eq!(Settings { colors: 3, slots: 4, repeats: true }.validate(), Err(SettingsError::ColorsOutOfRange));
    assert_eq!(Settings { colors: 9, slots: 4, repeats: true }.validate(), Err(SettingsError::ColorsOutOfRange));
    assert_eq!(Settings { colors: 6, slots: 2, repeats: true }.validate(), Err(SettingsError::SlotsOutOfRange));
    assert_eq!(Settings { colors: 6, slots: 7, repeats: true }.validate(), Err(SettingsError::SlotsOutOfRange));
}

#[test]
fn settings_no_repeat_requires_slots_le_colors() {
    assert_eq!(
        Settings { colors: 4, slots: 5, repeats: false }.validate(),
        Err(SettingsError::SlotsExceedColors)
    );
    assert!(Settings { colors: 6, slots: 4, repeats: false }.validate().is_ok());
}

#[test]
fn record_new_defaults_enabled() {
    let r = Record::new(vec![1, 2, 3, 4], 1, 0);
    assert!(r.enabled);
    assert_eq!(r.guess, vec![1, 2, 3, 4]);
    assert_eq!((r.exact, r.partial), (1, 0));
}

#[test]
fn record_validate() {
    let s = Settings::default();
    assert!(Record::new(vec![0, 1, 2, 3], 4, 0).validate(&s).is_ok());
    assert!(Record::new(vec![5, 5, 5, 5], 2, 2).validate(&s).is_ok());
    assert_eq!(Record::new(vec![0, 1, 2], 0, 0).validate(&s), Err(RecordError::WrongLength));
    assert_eq!(Record::new(vec![0, 1, 2, 6], 0, 0).validate(&s), Err(RecordError::ColorOutOfRange));
    assert_eq!(Record::new(vec![0, 1, 2, 3], 3, 2).validate(&s), Err(RecordError::CountsTooLarge));
    assert_eq!(Record::new(vec![0, 1, 2, 3], 5, 0).validate(&s), Err(RecordError::CountsTooLarge));
}

#[test]
fn error_messages_describe_the_rule() {
    assert_eq!(SettingsError::ColorsOutOfRange.message(), "颜色数必须在 4..=8");
    assert_eq!(SettingsError::SlotsOutOfRange.message(), "槽位数必须在 3..=6");
    assert_eq!(SettingsError::SlotsExceedColors.message(), "不允许重复时槽位数不能超过颜色数");
    assert_eq!(RecordError::WrongLength.message(), "宝石数必须等于槽位数");
    assert_eq!(RecordError::ColorOutOfRange.message(), "宝石索引超出颜色数范围");
    assert_eq!(RecordError::CountsTooLarge.message(), "蓝标数+金标数不能超过槽位数");
}

#[test]
fn duplicate_keeps_every_field() {
    let mut r = Record::new(vec![3, 1, 2, 0], 1, 0);
    r.enabled = false;
    let d = r.duplicate();
    assert_eq!(d, r);
}
