//! The widths of the bars that the exchange serves.

use crate::text::text_equal;
use vstd::prelude::*;

verus! {

#[derive(Clone, Copy, Debug, PartialEq, Eq, Hash, Structural)]
pub enum Timeframe {
    OneSecond,
    FiveSeconds,
    OneMinute,
    FiveMinutes,
    FifteenMinutes,
    ThirtyMinutes,
    OneHour,
    FourHours,
    OneDay,
}

impl Timeframe {
    /// The name that the exchange uses.
    pub open spec fn api_name(self) -> Seq<char> {
        match self {
            Timeframe::OneSecond => "1s"@,
            Timeframe::FiveSeconds => "5s"@,
            Timeframe::OneMinute => "1m"@,
            Timeframe::FiveMinutes => "5m"@,
            Timeframe::FifteenMinutes => "15m"@,
            Timeframe::ThirtyMinutes => "30m"@,
            Timeframe::OneHour => "1h"@,
            Timeframe::FourHours => "4h"@,
            Timeframe::OneDay => "1d"@,
        }
    }

    /// The width of a bar in milliseconds.
    pub open spec fn width_ms(self) -> int {
        let seconds: int = match self {
            Timeframe::OneSecond => 1,
            Timeframe::FiveSeconds => 5,
            Timeframe::OneMinute => 60,
            Timeframe::FiveMinutes => 300,
            Timeframe::FifteenMinutes => 900,
            Timeframe::ThirtyMinutes => 1_800,
            Timeframe::OneHour => 3_600,
            Timeframe::FourHours => 14_400,
            Timeframe::OneDay => 86_400,
        };
        1_000 * seconds
    }

    /// The timeframe of a name.
    pub open spec fn named(name: Seq<char>) -> Option<Timeframe> {
        if exists|timeframe: Timeframe| #[trigger] timeframe.api_name() == name {
            Some(choose|timeframe: Timeframe| #[trigger] timeframe.api_name() == name)
        } else {
            None
        }
    }

    /// Every timeframe, the shortest first.
    pub open spec fn in_order() -> Seq<Timeframe> {
        seq![
            Timeframe::OneSecond,
            Timeframe::FiveSeconds,
            Timeframe::OneMinute,
            Timeframe::FiveMinutes,
            Timeframe::FifteenMinutes,
            Timeframe::ThirtyMinutes,
            Timeframe::OneHour,
            Timeframe::FourHours,
            Timeframe::OneDay,
        ]
    }

    /// Every timeframe, the shortest first.
    pub fn all() -> (list: Vec<Timeframe>)
        ensures
            list@ == Timeframe::in_order(),
    {
        let list: Vec<Timeframe> = vec![
            Timeframe::OneSecond,
            Timeframe::FiveSeconds,
            Timeframe::OneMinute,
            Timeframe::FiveMinutes,
            Timeframe::FifteenMinutes,
            Timeframe::ThirtyMinutes,
            Timeframe::OneHour,
            Timeframe::FourHours,
            Timeframe::OneDay,
        ];
        assert(list@ == Timeframe::in_order());
        list
    }

    pub fn as_api(self) -> (name: &'static str)
        ensures
            name@ == self.api_name(),
    {
        match self {
            Timeframe::OneSecond => "1s",
            Timeframe::FiveSeconds => "5s",
            Timeframe::OneMinute => "1m",
            Timeframe::FiveMinutes => "5m",
            Timeframe::FifteenMinutes => "15m",
            Timeframe::ThirtyMinutes => "30m",
            Timeframe::OneHour => "1h",
            Timeframe::FourHours => "4h",
            Timeframe::OneDay => "1d",
        }
    }

    /// The name that the desk shows.
    pub fn label(self) -> (name: &'static str)
        ensures
            name@ == self.api_name(),
    {
        self.as_api()
    }

    /// The timeframe of a name; none where no timeframe has that name.
    pub fn from_api(value: &str) -> (result: Option<Timeframe>)
        ensures
            match result {
                Some(timeframe) => timeframe.api_name() == value@,
                None => forall|timeframe: Timeframe| #[trigger] timeframe.api_name() != value@,
            },
            result == Timeframe::named(value@),
    {
        let all: Vec<Timeframe> = Timeframe::all();
        let mut i: usize = 0;
        while i < all.len()
            invariant
                i <= all.len(),
                all@ == Timeframe::in_order(),
                forall|j: int| 0 <= j < i ==> (#[trigger] all@[j]).api_name() != value@,
            decreases all.len() - i,
        {
            if text_equal(all[i].as_api(), value) {
                proof {
                    let chosen = Timeframe::named(value@);
                    assert(all@[i as int].api_name() == value@);
                    names_are_unique(chosen->0, all@[i as int]);
                }
                return Some(all[i]);
            }
            i = i + 1;
        }
        proof {
            assert forall|timeframe: Timeframe| #[trigger] timeframe.api_name() != value@ by {
                let k = timeframe.position();
                assert(all@[k] == timeframe);
            }
        }
        None
    }

    pub fn duration_ms(self) -> (width: i64)
        ensures
            width == self.width_ms(),
    {
        match self {
            Timeframe::OneSecond => 1_000,
            Timeframe::FiveSeconds => 5_000,
            Timeframe::OneMinute => 60_000,
            Timeframe::FiveMinutes => 300_000,
            Timeframe::FifteenMinutes => 900_000,
            Timeframe::ThirtyMinutes => 1_800_000,
            Timeframe::OneHour => 3_600_000,
            Timeframe::FourHours => 14_400_000,
            Timeframe::OneDay => 86_400_000,
        }
    }

    /// The place of a timeframe among all.
    pub open spec fn position(self) -> int {
        match self {
            Timeframe::OneSecond => 0,
            Timeframe::FiveSeconds => 1,
            Timeframe::OneMinute => 2,
            Timeframe::FiveMinutes => 3,
            Timeframe::FifteenMinutes => 4,
            Timeframe::ThirtyMinutes => 5,
            Timeframe::OneHour => 6,
            Timeframe::FourHours => 7,
            Timeframe::OneDay => 8,
        }
    }
}

/// No two timeframes share a name.
pub proof fn names_are_unique(a: Timeframe, b: Timeframe)
    requires
        a.api_name() == b.api_name(),
    ensures
        a == b,
{
    reveal_strlit("1s");
    reveal_strlit("5s");
    reveal_strlit("1m");
    reveal_strlit("5m");
    reveal_strlit("15m");
    reveal_strlit("30m");
    reveal_strlit("1h");
    reveal_strlit("4h");
    reveal_strlit("1d");
    assert("1s"@.len() == 2 && "1s"@[0] == '1' && "1s"@[1] == 's');
    assert("5s"@.len() == 2 && "5s"@[0] == '5' && "5s"@[1] == 's');
    assert("1m"@.len() == 2 && "1m"@[0] == '1' && "1m"@[1] == 'm');
    assert("5m"@.len() == 2 && "5m"@[0] == '5' && "5m"@[1] == 'm');
    assert("15m"@.len() == 3 && "15m"@[0] == '1' && "15m"@[1] == '5' && "15m"@[2] == 'm');
    assert("30m"@.len() == 3 && "30m"@[0] == '3' && "30m"@[1] == '0' && "30m"@[2] == 'm');
    assert("1h"@.len() == 2 && "1h"@[0] == '1' && "1h"@[1] == 'h');
    assert("4h"@.len() == 2 && "4h"@[0] == '4' && "4h"@[1] == 'h');
    assert("1d"@.len() == 2 && "1d"@[0] == '1' && "1d"@[1] == 'd');
    assert(a.api_name()[0] == b.api_name()[0]);
    assert(a.api_name()[1] == b.api_name()[1]);
}

/// The name of a timeframe leads back to it.
pub proof fn names_lead_back(timeframe: Timeframe)
    ensures
        Timeframe::named(timeframe.api_name()) == Some(timeframe),
{
    let name = timeframe.api_name();
    assert(timeframe.api_name() == name);
    names_are_unique(Timeframe::named(name)->0, timeframe);
}

/// The listed timeframes are all there are, in the order of their widths.
pub proof fn listed_by_width(i: int, j: int, timeframe: Timeframe)
    requires
        0 <= i < j < Timeframe::in_order().len(),
    ensures
        Timeframe::in_order()[i].width_ms() < Timeframe::in_order()[j].width_ms(),
        Timeframe::in_order().contains(timeframe),
{
    assert(Timeframe::in_order()[timeframe.position()] == timeframe);
}

/// The name of a timeframe says its width: a count of seconds, minutes, hours or
/// days.
pub proof fn name_says_width(timeframe: Timeframe)
    ensures
        ({
            let name = timeframe.api_name();
            let count = crate::text::decimal_value(name.drop_last());
            &&& name.len() >= 2
            &&& crate::text::all_digits(name.drop_last())
            &&& name[0] != '0'
            &&& {
                ||| name.last() == 's' && timeframe.width_ms() == count * 1_000
                ||| name.last() == 'm' && timeframe.width_ms() == count * 60_000
                ||| name.last() == 'h' && timeframe.width_ms() == count * 3_600_000
                ||| name.last() == 'd' && timeframe.width_ms() == count * 86_400_000
            }
        }),
{
    reveal_strlit("1s");
    reveal_strlit("5s");
    reveal_strlit("1m");
    reveal_strlit("5m");
    reveal_strlit("15m");
    reveal_strlit("30m");
    reveal_strlit("1h");
    reveal_strlit("4h");
    reveal_strlit("1d");
    let digits = timeframe.api_name().drop_last();
    assert(Seq::<char>::empty().len() == 0);
    assert(crate::text::decimal_value(Seq::<char>::empty()) == 0);
    assert(digits.drop_last().len() > 0 ==> digits.drop_last().drop_last() =~= Seq::empty());
    assert(digits.drop_last().len() == 0 ==> digits.drop_last() =~= Seq::empty());
    reveal_with_fuel(crate::text::decimal_value, 4);
}

/// A timeframe is as wide as it is called.
pub proof fn widths_are_as_called(timeframe: Timeframe)
    ensures
        timeframe.width_ms() == 1_000 * match timeframe {
            Timeframe::OneSecond => 1int,
            Timeframe::FiveSeconds => 5,
            Timeframe::OneMinute => 60,
            Timeframe::FiveMinutes => 5int * 60,
            Timeframe::FifteenMinutes => 15int * 60,
            Timeframe::ThirtyMinutes => 30int * 60,
            Timeframe::OneHour => 60int * 60,
            Timeframe::FourHours => 4int * 60 * 60,
            Timeframe::OneDay => 24int * 60 * 60,
        },
{
}

} // verus!
