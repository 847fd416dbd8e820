//! Validation of fully qualified ROS names, shared by subscriptions and
//! publishing.
use vstd::prelude::*;
use vstd::string::*;

use crate::text::{characters, combine, render_integer};
use crate::text::integer_text;

verus! {

/// Whether a segment of a name may start with `c`.
pub open spec fn is_start(c: char) -> bool {
    'a' <= c <= 'z' || 'A' <= c <= 'Z' || c == '_'
}

/// Whether a segment of a name may go on with `c`.
pub open spec fn is_part(c: char) -> bool {
    is_start(c) || '0' <= c <= '9'
}

/// Whether `segment` is a segment of a ROS name.
pub open spec fn valid_segment(segment: Seq<char>) -> bool {
    &&& segment.len() > 0
    &&& is_start(segment[0])
    &&& forall|i: int| 0 <= i < segment.len() ==> is_part(#[trigger] segment[i])
}

/// The segments of `text` between the slashes.
pub open spec fn segments(text: Seq<char>) -> Seq<Seq<char>>
    decreases text.len(),
{
    if text.len() == 0 {
        seq![Seq::empty()]
    } else {
        let before = segments(text.drop_last());
        if text.last() == '/' {
            before.push(Seq::empty())
        } else {
            before.drop_last().push(before.last().push(text.last()))
        }
    }
}

/// Whether every segment is one of a ROS name.
pub open spec fn all_valid(parts: Seq<Seq<char>>) -> bool {
    forall|i: int| 0 <= i < parts.len() ==> valid_segment(#[trigger] parts[i])
}

/// Whether `name` is a fully qualified ROS name: a slash, and segments
/// separated by slashes.
pub open spec fn valid_topic(name: Seq<char>) -> bool {
    &&& name.len() > 0
    &&& name[0] == '/'
    &&& all_valid(segments(name.drop_first()))
}

/// Whether every segment but the last is one of a ROS name, and the last is
/// one or empty.
spec fn good_so_far(parts: Seq<Seq<char>>) -> bool {
    &&& all_valid(parts.drop_last())
    &&& parts.last().len() == 0 || valid_segment(parts.last())
}

proof fn lemma_segments(text: Seq<char>)
    ensures
        segments(text).len() > 0,
    decreases text.len(),
{
    if text.len() > 0 {
        lemma_segments(text.drop_last());
    }
}

proof fn lemma_step(text: Seq<char>)
    requires
        text.len() > 0,
    ensures
        good_so_far(segments(text)) == (if text.last() == '/' {
            good_so_far(segments(text.drop_last())) && segments(text.drop_last()).last().len() > 0
        } else {
            good_so_far(segments(text.drop_last())) && (if segments(
                text.drop_last(),
            ).last().len() == 0 {
                is_start(text.last())
            } else {
                is_part(text.last())
            })
        }),
        segments(text).last().len() == 0 <==> text.last() == '/',
{
    let before = segments(text.drop_last());
    let after = segments(text);
    lemma_segments(text.drop_last());
    if text.last() == '/' {
        assert(after.drop_last() =~= before);
        assert(before =~= before.drop_last().push(before.last()));
        if all_valid(before) {
            assert(valid_segment(before[before.len() - 1]));
            assert forall|i: int| 0 <= i < before.drop_last().len() implies valid_segment(
                #[trigger] before.drop_last()[i],
            ) by {
                assert(valid_segment(before[i]));
            }
        }
        if good_so_far(before) && before.last().len() > 0 {
            assert forall|i: int| 0 <= i < before.len() implies valid_segment(
                #[trigger] before[i],
            ) by {
                if i < before.len() - 1 {
                    assert(valid_segment(before.drop_last()[i]));
                }
            }
        }
    } else {
        let c = text.last();
        let old_part = before.last();
        let new_part = old_part.push(c);
        assert(after.drop_last() =~= before.drop_last());
        assert(new_part[old_part.len() as int] == c);
        if valid_segment(new_part) && old_part.len() > 0 {
            assert forall|i: int| 0 <= i < old_part.len() implies is_part(
                #[trigger] old_part[i],
            ) by {
                assert(is_part(new_part[i]));
            }
            assert(old_part[0] == new_part[0]);
        }
        if valid_segment(new_part) {
            assert(is_part(new_part[old_part.len() as int]));
        }
    }
}

/// Whether a character is a letter from `a` to `z`, in either case, or an underscore.
pub open spec fn is_letter(c: char) -> bool {
    97 <= c as int <= 122 || 65 <= c as int <= 90 || c as int == 95
}

/// Whether a character is a digit from `0` to `9`.
pub open spec fn is_digit(c: char) -> bool {
    48 <= c as int <= 57
}

/// Whether a character may stand at a place of a name, by the one before it: a letter
/// behind a slash, and a letter, a digit or a slash elsewhere.
pub open spec fn may_follow(before: char, c: char) -> bool {
    if before == '/' {
        is_letter(c)
    } else {
        is_letter(c) || is_digit(c) || c == '/'
    }
}

/// A name is valid exactly where it begins with a slash, ends with none, and every
/// other character may follow the one before it.
pub proof fn lemma_topic_characters(name: Seq<char>)
    ensures
        valid_topic(name) <==> {
            &&& name.len() > 1
            &&& name[0] == '/'
            &&& name[name.len() - 1] != '/'
            &&& forall|i: int, j: int|
                1 <= i < name.len() && j == i - 1 ==> may_follow(
                    #[trigger] name[j],
                    #[trigger] name[i],
                )
        },
{
    if name.len() > 0 && name[0] == '/' {
        let relative = name.drop_first();
        let parts = segments(relative);
        lemma_segments(relative);
        lemma_characters(name);
        if all_valid(parts) {
            assert(valid_segment(parts[parts.len() - 1]));
            assert forall|k: int| 0 <= k < parts.drop_last().len() implies valid_segment(
                #[trigger] parts.drop_last()[k],
            ) by {
                assert(valid_segment(parts[k]));
            }
        }
        if good_so_far(parts) && parts.last().len() > 0 {
            assert forall|k: int| 0 <= k < parts.len() implies valid_segment(
                #[trigger] parts[k],
            ) by {
                if k < parts.len() - 1 {
                    assert(valid_segment(parts.drop_last()[k]));
                }
            }
        }
    }
}

proof fn lemma_characters(name: Seq<char>)
    requires
        name.len() > 0,
        name[0] == '/',
    ensures
        good_so_far(segments(name.drop_first())) <==> forall|i: int, j: int|
            1 <= i < name.len() && j == i - 1 ==> may_follow(
                #[trigger] name[j],
                #[trigger] name[i],
            ),
        segments(name.drop_first()).last().len() == 0 <==> name[name.len() - 1] == '/',
    decreases name.len(),
{
    let relative = name.drop_first();
    if name.len() == 1 {
        assert(segments(relative).drop_last() =~= Seq::empty());
    } else {
        let shorter = name.drop_last();
        let last = name.len() - 1;
        assert(relative.drop_last() =~= shorter.drop_first());
        assert(relative.last() == name[last]);
        lemma_characters(shorter);
        lemma_step(relative);
        if good_so_far(segments(relative)) {
            assert forall|i: int, j: int|
                1 <= i < name.len() && j == i - 1 implies may_follow(
                #[trigger] name[j],
                #[trigger] name[i],
            ) by {
                assert(shorter[j] == name[j]);
                if i < last {
                    assert(shorter[i] == name[i]);
                }
            }
        } else {
            assert(!(good_so_far(segments(relative.drop_last())) && may_follow(
                name[last - 1],
                name[last],
            )));
            if !good_so_far(segments(relative.drop_last())) {
                let (i, j) = choose|i: int, j: int|
                    1 <= i < shorter.len() && j == i - 1 && !may_follow(
                        #[trigger] shorter[j],
                        #[trigger] shorter[i],
                    );
                assert(!may_follow(name[j], name[i]));
            }
        }
    }
}

/// Whether a segment of a name may start with `c`.
fn may_start(c: char) -> (result: bool)
    ensures
        result == is_start(c),
{
    let code: u32 = c as u32;
    (97 <= code && code <= 122) || (65 <= code && code <= 90) || code == 95
}

/// Whether a segment of a name may go on with `c`.
fn may_go_on(c: char) -> (result: bool)
    ensures
        result == is_part(c),
{
    let code: u32 = c as u32;
    may_start(c) || (48 <= code && code <= 57)
}

/// Checks that `name` is a fully qualified ROS name with valid segments.
///
/// Only the ROS name rules are enforced here. The PostgreSQL notification
/// channel length limit is subscription-specific and applied by its caller.
pub fn validate_topic(name: &str) -> (result: Result<(), &'static str>)
    ensures
        result is Ok <==> valid_topic(name@),
        result is Err ==> result->Err_0@ == (if name@.len() == 0 || name@[0] != '/' {
            "topic must be a fully qualified ROS name starting with '/'"@
        } else {
            "topic must contain nonempty ROS name segments (letters, digits, underscores; no leading digits)"@
        }),
{
    let letters = characters(name);
    if letters.len() == 0 || letters[0] != '/' {
        return Err("topic must be a fully qualified ROS name starting with '/'");
    }
    let ghost relative = name@.drop_first();
    let mut good: bool = true;
    let mut fresh: bool = true;
    let mut i: usize = 1;
    assert(relative.take(0) =~= Seq::empty());
    assert(segments(relative.take(0)).drop_last() =~= Seq::empty());
    while i < letters.len()
        invariant
            1 <= i <= letters@.len(),
            letters@ == name@,
            relative == name@.drop_first(),
            good == good_so_far(segments(relative.take(i - 1))),
            fresh == (segments(relative.take(i - 1)).last().len() == 0),
        decreases letters@.len() - i,
    {
        let c = letters[i];
        proof {
            assert(relative.take(i as int).drop_last() =~= relative.take(i - 1));
            assert(relative.take(i as int).last() == c);
            lemma_step(relative.take(i as int));
        }
        if c == '/' {
            good = good && !fresh;
            fresh = true;
        } else {
            good = good && (if fresh {
                may_start(c)
            } else {
                may_go_on(c)
            });
            fresh = false;
        }
        i += 1;
    }
    proof {
        assert(relative.take(i - 1) =~= relative);
        let parts = segments(relative);
        lemma_segments(relative);
        if good && !fresh {
            assert forall|k: int| 0 <= k < parts.len() implies valid_segment(#[trigger] parts[k]) by {
                if k < parts.len() - 1 {
                    assert(valid_segment(parts.drop_last()[k]));
                }
            }
        }
        if all_valid(parts) {
            assert(valid_segment(parts[parts.len() - 1]));
            assert forall|k: int| 0 <= k < parts.drop_last().len() implies valid_segment(
                #[trigger] parts.drop_last()[k],
            ) by {
                assert(valid_segment(parts[k]));
            }
        }
    }
    if good && !fresh {
        Ok(())
    } else {
        Err(
            "topic must contain nonempty ROS name segments (letters, digits, underscores; no leading digits)",
        )
    }
}

/// The name of the ROS node of a process in a role.
pub fn node_name(role: &str, process: u32) -> (name: String)
    ensures
        name@ == "pg_ros2_"@ + role@ + "_"@ + integer_text(process as int),
{
    let mut name = combine("pg_ros2_", role);
    name.append("_");
    name.append(render_integer(process as i128).as_str());
    name
}

} // verus!
