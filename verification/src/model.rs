//! Game settings and guess records, with their validation rules.
use vstd::prelude::*;

verus! {

/// Rules of one puzzle: number of colours, number of slots, and whether a
/// colour may occur more than once in the answer.
#[derive(Debug, Clone, Copy, PartialEq, Eq, Structural)]
pub struct Settings {
    pub colors: usize,
    pub slots: usize,
    pub repeats: bool,
}

#[derive(Debug, Clone, Copy, PartialEq, Eq, Structural)]
pub enum SettingsError {
    ColorsOutOfRange,
    SlotsOutOfRange,
    SlotsExceedColors,
}

pub open spec fn settings_error_text(e: SettingsError) -> Seq<char> {
    match e {
        SettingsError::ColorsOutOfRange => "颜色数必须在 4..=8"@,
        SettingsError::SlotsOutOfRange => "槽位数必须在 3..=6"@,
        SettingsError::SlotsExceedColors => "不允许重复时槽位数不能超过颜色数"@,
    }
}

impl SettingsError {
    /// Human readable description of the error.
    pub fn message(&self) -> (s: &'static str)
        ensures
            s@ == settings_error_text(*self),
    {
        match self {
            SettingsError::ColorsOutOfRange => "颜色数必须在 4..=8",
            SettingsError::SlotsOutOfRange => "槽位数必须在 3..=6",
            SettingsError::SlotsExceedColors => "不允许重复时槽位数不能超过颜色数",
        }
    }
}

impl Default for Settings {
    fn default() -> (s: Self)
        ensures
            s == Settings::spec_default(),
    {
        Settings { colors: 6, slots: 4, repeats: true }
    }
}

impl Settings {
    /// The rules of the real game: six colours, four slots, repeats allowed.
    pub open spec fn spec_default() -> Settings {
        Settings { colors: 6, slots: 4, repeats: true }
    }

    /// Settings accepted by `validate`.
    pub open spec fn valid(self) -> bool {
        &&& 4 <= self.colors <= 8
        &&& 3 <= self.slots <= 6
        &&& (self.repeats || self.slots <= self.colors)
    }

    pub fn validate(&self) -> (r: Result<(), SettingsError>)
        ensures
            r is Ok <==> self.valid(),
            r == Err::<(), SettingsError>(SettingsError::ColorsOutOfRange) <==> !(4 <= self.colors
                <= 8),
            r == Err::<(), SettingsError>(SettingsError::SlotsOutOfRange) <==> (4 <= self.colors
                <= 8 && !(3 <= self.slots <= 6)),
            r == Err::<(), SettingsError>(SettingsError::SlotsExceedColors) <==> (4 <= self.colors
                <= 8 && 3 <= self.slots <= 6 && !self.repeats && self.slots > self.colors),
    {
        if !(4 <= self.colors && self.colors <= 8) {
            return Err(SettingsError::ColorsOutOfRange);
        }
        if !(3 <= self.slots && self.slots <= 6) {
            return Err(SettingsError::SlotsOutOfRange);
        }
        if !self.repeats && self.slots > self.colors {
            return Err(SettingsError::SlotsExceedColors);
        }
        Ok(())
    }
}

/// One past guess with the feedback it received. Disabled records take no
/// part in filtering.
#[derive(Debug, Clone, PartialEq, Eq)]
pub struct Record {
    pub guess: Vec<u8>,
    pub exact: u8,
    pub partial: u8,
    pub enabled: bool,
}

#[derive(Debug, Clone, Copy, PartialEq, Eq, Structural)]
pub enum RecordError {
    WrongLength,
    ColorOutOfRange,
    CountsTooLarge,
}

pub open spec fn record_error_text(e: RecordError) -> Seq<char> {
    match e {
        RecordError::WrongLength => "宝石数必须等于槽位数"@,
        RecordError::ColorOutOfRange => "宝石索引超出颜色数范围"@,
        RecordError::CountsTooLarge => "蓝标数+金标数不能超过槽位数"@,
    }
}

impl RecordError {
    /// Human readable description of the error.
    pub fn message(&self) -> (s: &'static str)
        ensures
            s@ == record_error_text(*self),
    {
        match self {
            RecordError::WrongLength => "宝石数必须等于槽位数",
            RecordError::ColorOutOfRange => "宝石索引超出颜色数范围",
            RecordError::CountsTooLarge => "蓝标数+金标数不能超过槽位数",
        }
    }
}

impl Record {
    pub fn new(guess: Vec<u8>, exact: u8, partial: u8) -> (r: Record)
        ensures
            r.guess == guess,
            r.exact == exact,
            r.partial == partial,
            r.enabled,
    {
        Record { guess, exact, partial, enabled: true }
    }

    /// A copy of the record with the same guess, counts and switch.
    pub fn duplicate(&self) -> (r: Record)
        ensures
            r.guess@ == self.guess@,
            r.exact == self.exact,
            r.partial == self.partial,
            r.enabled == self.enabled,
    {
        Record {
            guess: self.guess.clone(),
            exact: self.exact,
            partial: self.partial,
            enabled: self.enabled,
        }
    }

    /// Every colour of the guess is below `colors`.
    pub open spec fn colors_below(self, colors: usize) -> bool {
        forall|i: int| 0 <= i < self.guess@.len() ==> (#[trigger] self.guess@[i] as int) < colors
    }

    pub fn validate(&self, settings: &Settings) -> (r: Result<(), RecordError>)
        ensures
            r is Ok <==> (self.guess@.len() == settings.slots && self.colors_below(settings.colors)
                && self.exact + self.partial <= settings.slots),
            r == Err::<(), RecordError>(RecordError::WrongLength) <==> self.guess@.len()
                != settings.slots,
            r == Err::<(), RecordError>(RecordError::ColorOutOfRange) <==> (self.guess@.len()
                == settings.slots && !self.colors_below(settings.colors)),
            r == Err::<(), RecordError>(RecordError::CountsTooLarge) <==> (self.guess@.len()
                == settings.slots && self.colors_below(settings.colors) && self.exact
                + self.partial > settings.slots),
    {
        if self.guess.len() != settings.slots {
            return Err(RecordError::WrongLength);
        }
        let mut i: usize = 0;
        while i < self.guess.len()
            invariant
                i <= self.guess.len(),
                self.guess.len() == settings.slots,
                forall|j: int| 0 <= j < i ==> (#[trigger] self.guess@[j] as int) < settings.colors,
            decreases self.guess.len() - i,
        {
            if self.guess[i] as usize >= settings.colors {
                assert(!((self.guess@[i as int] as int) < settings.colors));
                return Err(RecordError::ColorOutOfRange);
            }
            i += 1;
        }
        if self.exact as usize + self.partial as usize > settings.slots {
            return Err(RecordError::CountsTooLarge);
        }
        Ok(())
    }
}

} // verus!
