//! Tag lists of a given size with a given number of repeated keys.

use crate::merge::texts;
use vstd::prelude::*;

verus! {

/// The character of one decimal digit.
pub open spec fn digit_char(digit: nat) -> char {
    if digit == 0 {
        '0'
    } else if digit == 1 {
        '1'
    } else if digit == 2 {
        '2'
    } else if digit == 3 {
        '3'
    } else if digit == 4 {
        '4'
    } else if digit == 5 {
        '5'
    } else if digit == 6 {
        '6'
    } else if digit == 7 {
        '7'
    } else if digit == 8 {
        '8'
    } else {
        '9'
    }
}

/// The decimal digits of a number, most significant first.
pub open spec fn decimal(number: nat) -> Seq<char>
    decreases number,
{
    if number < 10 {
        seq![digit_char(number)]
    } else {
        decimal(number / 10).push(digit_char(number % 10))
    }
}

/// The tag of number `number`: the key `env-` with the number, and the value
/// `ec2`.
pub open spec fn numbered_tag(number: nat) -> Seq<char> {
    seq!['e', 'n', 'v', '-'] + decimal(number) + seq![':', 'e', 'c', '2']
}

/// The list of `count` tags of which the last `duplicates` repeat the keys
/// of the first: the numbers run from 0 up to `count - duplicates`, then
/// again from 0 up to `duplicates`.
pub open spec fn numbered_tags(count: nat, duplicates: nat) -> Seq<Seq<char>> {
    Seq::new(
        count,
        |i: int|
            if i < count - duplicates {
                numbered_tag(i as nat)
            } else {
                numbered_tag((i - (count - duplicates)) as nat)
            },
    )
}

/// The text of one decimal digit.
fn digit_text(digit: usize) -> (text: &'static str)
    requires
        digit < 10,
    ensures
        text@ == seq![digit_char(digit as nat)],
{
    proof {
        reveal_strlit("0");
        reveal_strlit("1");
        reveal_strlit("2");
        reveal_strlit("3");
        reveal_strlit("4");
        reveal_strlit("5");
        reveal_strlit("6");
        reveal_strlit("7");
        reveal_strlit("8");
        reveal_strlit("9");
    }
    let text = if digit == 0 {
        "0"
    } else if digit == 1 {
        "1"
    } else if digit == 2 {
        "2"
    } else if digit == 3 {
        "3"
    } else if digit == 4 {
        "4"
    } else if digit == 5 {
        "5"
    } else if digit == 6 {
        "6"
    } else if digit == 7 {
        "7"
    } else if digit == 8 {
        "8"
    } else {
        "9"
    };
    assert(text@ =~= seq![digit_char(digit as nat)]);
    text
}

/// The decimal digits of `number`.
pub fn decimal_text(number: usize) -> (text: String)
    ensures
        text@ == decimal(number as nat),
    decreases number,
{
    if number < 10 {
        digit_text(number).to_owned()
    } else {
        let mut text = decimal_text(number / 10);
        text.append(digit_text(number % 10));
        assert(text@ =~= decimal(number as nat));
        text
    }
}

/// The tag of number `number`.
pub fn make_tag(number: usize) -> (tag: String)
    ensures
        tag@ == numbered_tag(number as nat),
{
    proof {
        reveal_strlit("env-");
        reveal_strlit(":ec2");
    }
    let mut tag = "env-".to_owned();
    let digits = decimal_text(number);
    tag.append(digits.as_str());
    tag.append(":ec2");
    assert(tag@ =~= numbered_tag(number as nat));
    tag
}

/// A list of `num_tags` tags, the last `duplicates` of which repeat the keys
/// of the first.
pub fn generate_tags(num_tags: usize, duplicates: usize) -> (tags: Vec<String>)
    requires
        duplicates <= num_tags,
    ensures
        texts(tags@) == numbered_tags(num_tags as nat, duplicates as nat),
{
    let unique: usize = num_tags - duplicates;
    let mut tags: Vec<String> = Vec::new();
    let mut number: usize = 0;
    while number < unique
        invariant
            number <= unique,
            tags@.len() == number,
            forall|i: int| 0 <= i < number ==> (#[trigger] tags@[i])@ == numbered_tag(i as nat),
        decreases unique - number,
    {
        tags.push(make_tag(number));
        number = number + 1;
    }
    let mut repeated: usize = 0;
    while repeated < duplicates
        invariant
            repeated <= duplicates,
            unique == num_tags - duplicates,
            tags@.len() == unique + repeated,
            forall|i: int| 0 <= i < unique ==> (#[trigger] tags@[i])@ == numbered_tag(i as nat),
            forall|i: int|
                unique <= i < unique + repeated ==> (#[trigger] tags@[i])@ == numbered_tag(
                    (i - unique) as nat,
                ),
        decreases duplicates - repeated,
    {
        tags.push(make_tag(repeated));
        repeated = repeated + 1;
    }
    assert(texts(tags@) =~= numbered_tags(num_tags as nat, duplicates as nat));
    tags
}

} // verus!
