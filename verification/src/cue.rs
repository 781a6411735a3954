//! Cue points: from a Traktor cue, which starts at some fraction of a
//! millisecond, to a Rekordbox position mark, which starts at a whole
//! millisecond written in seconds.

use vstd::prelude::*;
use vstd::string::*;
use crate::decimal::{
    ceiling_magnitude, ceiling_of_decimal, is_decimal, is_negative, lemma_plain_decimal,
};
use crate::digits::{
    all_digits, all_zeros, char_of_digit, decimal_digits, digit_char, is_digit,
    lemma_decimal_digits_value, push_decimal,
};
use crate::error::ConversionError;
use crate::rekordbox_collection::{mark_list_view, PositionMark, PositionMarkView};
use crate::traktor_collection::{cue_list_view, CueV2, CueV2View};

verus! {

/// A start that can be converted: a decimal number whose whole milliseconds
/// fit in 128 bits.
pub open spec fn cue_start_valid(start: Seq<char>) -> bool {
    is_decimal(start) && ceiling_magnitude(start) <= u128::MAX
}

/// The three digits of `n`, for `n` below a thousand, with leading zeros.
pub open spec fn three_digits(n: nat) -> Seq<char> {
    seq![
        digit_char((n / 100 % 10) as nat),
        digit_char((n / 10 % 10) as nat),
        digit_char((n % 10) as nat),
    ]
}

/// So many milliseconds written in seconds, with exactly three digits after
/// the point.
pub open spec fn seconds_text(millis: nat) -> Seq<char> {
    decimal_digits(millis / 1000) + seq!['.'] + three_digits(millis % 1000)
}

/// The start of the mark for a cue that starts at `start`: the milliseconds
/// rounded up to a whole one, so that the mark never comes before the cue,
/// and written in seconds. A start with a minus sign keeps it.
pub open spec fn mark_start(start: Seq<char>) -> Seq<char> {
    if is_negative(start) {
        seq!['-'] + seconds_text(ceiling_magnitude(start))
    } else {
        seconds_text(ceiling_magnitude(start))
    }
}

/// The name of the mark for a cue called `name`: the beat grid's anchor gets
/// the name of the first bar, every other cue loses its name.
pub open spec fn mark_name(name: Seq<char>) -> Seq<char> {
    if name == "AutoGrid"@ {
        "1.1Bars"@
    } else {
        Seq::<char>::empty()
    }
}

/// The kind of every mark: a memory cue.
pub open spec fn memory_cue() -> Seq<char> {
    "0"@
}

/// The mark for a cue.
pub open spec fn mark_of(cue: CueV2View) -> PositionMarkView {
    PositionMarkView {
        name: mark_name(cue.name),
        kind: memory_cue(),
        start: mark_start(cue.start),
        num: cue.hotcue,
    }
}

/// Every cue of the list has a start that can be converted.
pub open spec fn cues_convertible(cues: Option<Seq<CueV2View>>) -> bool {
    match cues {
        Some(cues) => forall|i: int| 0 <= i < cues.len() ==> cue_start_valid((#[trigger] cues[i]).start),
        None => true,
    }
}

/// The marks for a list of cues: one for each cue, in the same order, and no
/// list where there is no list of cues.
pub open spec fn marks_of(cues: Option<Seq<CueV2View>>) -> Option<Seq<PositionMarkView>> {
    match cues {
        Some(cues) => Some(cues.map_values(|cue: CueV2View| mark_of(cue))),
        None => None,
    }
}

/// The marks mirror the cues: a list exactly where there is a list of cues,
/// as long as that list, with the mark of each cue in that cue's place.
pub proof fn lemma_marks_mirror_cues(cues: Option<Seq<CueV2View>>)
    ensures
        marks_of(cues) is None <==> cues is None,
        cues matches Some(list) ==> marks_of(cues)->0.len() == list.len(),
        cues matches Some(list) ==> forall|i: int|
            0 <= i < list.len() ==> (#[trigger] marks_of(cues)->0[i]) == mark_of(list[i]),
{
}

/// The seconds are written with exactly three decimals: digits, a point, and
/// three digits more.
pub proof fn lemma_seconds_text_has_three_decimals(millis: nat)
    ensures
        seconds_text(millis).len() >= 5,
        all_digits(seconds_text(millis).take(seconds_text(millis).len() - 4)),
        seconds_text(millis)[seconds_text(millis).len() - 4] == '.',
        all_digits(seconds_text(millis).skip(seconds_text(millis).len() - 3)),
{
    let text = seconds_text(millis);
    let whole = decimal_digits(millis / 1000);
    let rest = three_digits(millis % 1000);
    lemma_decimal_digits_value(millis / 1000);
    assert(text.take(text.len() - 4) =~= whole);
    assert(text.skip(text.len() - 3) =~= rest);
    assert(is_digit(rest[0]) && is_digit(rest[1]) && is_digit(rest[2]));
}

/// A cue that starts so many whole milliseconds and a fraction after the
/// beginning is marked at the next whole millisecond, and at that very
/// millisecond where the fraction is nothing but zeros.
pub proof fn lemma_start_rounds_up(millis: nat, fraction: Seq<char>)
    requires
        all_digits(fraction),
        millis < u128::MAX,
    ensures
        cue_start_valid(decimal_digits(millis).push('.') + fraction),
        all_zeros(fraction) ==> mark_start(decimal_digits(millis).push('.') + fraction)
            == seconds_text(millis),
        !all_zeros(fraction) ==> mark_start(decimal_digits(millis).push('.') + fraction)
            == seconds_text(millis + 1),
{
    lemma_decimal_digits_value(millis);
    lemma_plain_decimal(decimal_digits(millis), fraction);
}

/// Appends `millis` milliseconds, written in seconds with three decimals.
fn push_seconds(out: &mut String, millis: u128)
    ensures
        final(out)@ == old(out)@ + seconds_text(millis as nat),
{
    let rest: u16 = (millis % 1000) as u16;
    push_decimal(out, millis / 1000);
    out.push('.');
    out.push(char_of_digit((rest / 100 % 10) as u8));
    out.push(char_of_digit((rest / 10 % 10) as u8));
    out.push(char_of_digit((rest % 10) as u8));
    assert(final(out)@ =~= old(out)@ + seconds_text(millis as nat));
}

/// Converts the start of a cue, in milliseconds, to the start of its mark, in
/// seconds.
pub fn cue_start_to_seconds(start: &str) -> (seconds: Result<String, ConversionError>)
    ensures
        seconds is Ok <==> cue_start_valid(start@),
        seconds matches Ok(text) ==> text@ == mark_start(start@),
        seconds matches Err(error) ==> error == ConversionError::UnparsableCueStart,
{
    match ceiling_of_decimal(start) {
        None => Err(ConversionError::UnparsableCueStart),
        Some(whole) => {
            let mut text = String::new();
            if whole.negative {
                text.push('-');
            }
            push_seconds(&mut text, whole.magnitude);
            assert(text@ =~= mark_start(start@));
            Ok(text)
        },
    }
}

/// Converts one cue to its mark.
pub fn convert_cue(cue: &CueV2) -> (mark: Result<PositionMark, ConversionError>)
    ensures
        mark is Ok <==> cue_start_valid(cue@.start),
        mark matches Ok(made) ==> made@ == mark_of(cue@),
        mark matches Ok(made) ==> made.num == cue.hotcue && made.kind@ == "0"@ && made.name@ == (
        if cue.name@ == "AutoGrid"@ {
            "1.1Bars"@
        } else {
            Seq::<char>::empty()
        }),
        mark matches Err(error) ==> error == ConversionError::UnparsableCueStart,
{
    let start = match cue_start_to_seconds(cue.start.as_str()) {
        Err(error) => {
            return Err(error);
        },
        Ok(start) => start,
    };
    let anchor = String::from_str("AutoGrid");
    let name = if cue.name == anchor {
        String::from_str("1.1Bars")
    } else {
        String::new()
    };
    Ok(PositionMark { name, kind: String::from_str("0"), start, num: cue.hotcue })
}

/// Converts the cues of a track to its marks: one mark for each cue, in the
/// same order, and no list where there is no list of cues. Fails if one of
/// the starts cannot be converted.
pub fn convert_cues(cues: &Option<Vec<CueV2>>) -> (marks: Result<
    Option<Vec<PositionMark>>,
    ConversionError,
>)
    ensures
        marks is Ok <==> cues_convertible(cue_list_view(*cues)),
        marks matches Ok(made) ==> mark_list_view(made) == marks_of(cue_list_view(*cues)),
        marks matches Ok(made) ==> (made is None <==> *cues is None),
        marks matches Ok(Some(list)) ==> cues is Some && list.len() == cues->0.len() && forall|
            i: int,
        |
            0 <= i < list.len() ==> (#[trigger] list[i])@ == mark_of(cues->0[i]@),
        marks matches Err(error) ==> error == ConversionError::UnparsableCueStart,
{
    match cues {
        None => Ok(None),
        Some(list) => {
            let mut made: Vec<PositionMark> = Vec::new();
            let mut i: usize = 0;
            while i < list.len()
                invariant
                    *cues == Some(*list),
                    i <= list.len(),
                    made.len() == i,
                    forall|j: int|
                        0 <= j < i ==> cue_start_valid((#[trigger] list[j])@.start) && made[j]@
                            == mark_of(list[j]@),
                decreases list.len() - i,
            {
                match convert_cue(&list[i]) {
                    Err(error) => {
                        assert(cue_list_view(*cues)->0[i as int] == list[i as int]@);
                        return Err(error);
                    },
                    Ok(mark) => {
                        made.push(mark);
                    },
                }
                i += 1;
            }
            proof {
                let views = cue_list_view(*cues)->0;
                assert forall|j: int| 0 <= j < views.len() implies cue_start_valid(
                    (#[trigger] views[j]).start,
                ) by {
                    assert(views[j] == list[j]@);
                }
                assert(made@.map_values(|mark: PositionMark| mark@) =~= views.map_values(
                    |cue: CueV2View| mark_of(cue),
                ));
            }
            Ok(Some(made))
        },
    }
}

} // verus!
