//! Rows that are put together from their columns read back as those columns.

use crate::lines::{
    is_word, lemma_first_in_is, lemma_joined_front, lemma_single_line, lemma_trimmed_already,
    lemma_words_joined,
};
use crate::model::{CronEntryView, TimerView};
use crate::parse::{
    cadence, count_in, cron_entry_of, cron_line_of, cron_of, is_cron_field, is_date, is_setting,
    is_span_word, is_stamp, is_stamp_words, law_drop_ins_are_jobs,
    law_timer_generations_read_the_same, lemma_telling_all, lemma_timer_column, source_after,
    stamps_of, telling, timer_column, timer_row_of, timer_rule,
};
use crate::text::{
    after_prefix, all_in, first_in, is_alpha, is_digit, is_space, joined, last_in, lemma_first_in,
    lemma_last_in, lines_of, trimmed, words_of, Class,
};
use vstd::prelude::*;
use vstd::utf8::{is_ascii_chars, is_ascii_chars_encode_utf8};

verus! {

// ------------------------------------------------------------- crontabs ----

/// A word of a schedule: letters, digits and the signs of cron, and at least one
/// digit or star.
pub open spec fn is_field_word(w: Seq<char>) -> bool {
    &&& forall|i: int|
        0 <= i < w.len() ==> {
            let c = #[trigger] w[i];
            is_digit(c) || is_alpha(c) || c == '*' || c == '/' || c == ',' || c == '-'
        }
    &&& exists|i: int| 0 <= i < w.len() && (is_digit(#[trigger] w[i]) || w[i] == '*')
}

/// A schedule: five such words, or one word that starts with `@`.
pub open spec fn is_schedule(s: Seq<Seq<char>>) -> bool {
    ||| s.len() == 5 && forall|i: int| 0 <= i < 5 ==> is_field_word(#[trigger] s[i])
    ||| s.len() == 1 && is_word(s[0]) && s[0][0] == '@'
}

/// Words, at least one.
pub open spec fn are_words(s: Seq<Seq<char>>) -> bool {
    s.len() > 0 && forall|i: int| 0 <= i < s.len() ==> is_word(#[trigger] s[i])
}

/// Joined words begin with the first character of the first and end with the last of
/// the last.
pub proof fn lemma_joined_ends(ws: Seq<Seq<char>>)
    requires
        are_words(ws),
    ensures
        joined(ws, " "@).len() > 0,
        joined(ws, " "@)[0] == ws[0][0],
        joined(ws, " "@).last() == ws.last().last(),
        trimmed(joined(ws, " "@)) == joined(ws, " "@),
        ws.len() > 1 ==> joined(ws, " "@) == ws[0] + (seq![' '] + joined(ws.skip(1), " "@)),
{
    reveal_strlit(" ");
    let s = joined(ws, " "@);
    assert(is_word(ws[0]));
    assert(ws.last() == ws[ws.len() - 1]);
    assert(is_word(ws.last()));
    if ws.len() > 1 {
        assert(ws =~= seq![ws[0]] + ws.skip(1));
        lemma_joined_front(ws[0], ws.skip(1), " "@);
        assert(s =~= ws[0] + (seq![' '] + joined(ws.skip(1), " "@)));
    }
    lemma_trimmed_already(s);
}

proof fn lemma_field(w: Seq<char>)
    requires
        is_field_word(w),
    ensures
        is_cron_field(w),
        is_word(w),
        w[0] != '#',
        w[0] != '@',
        forall|i: int| 0 <= i < w.len() ==> #[trigger] w[i] != '=',
{
    let i = choose|i: int| 0 <= i < w.len() && (is_digit(#[trigger] w[i]) || w[i] == '*');
    assert(Class::Star.holds(w[i]));
    assert forall|j: int| 0 <= j < w.len() implies Class::Field.holds(#[trigger] w[j]) && !is_space(
        w[j],
    ) && w[j] != '=' && w[j] != '#' && w[j] != '@' by {
        let c = w[j];
        assert(is_digit(c) || is_alpha(c) || c == '*' || c == '/' || c == ',' || c == '-');
    }
    assert(is_word(w));
}

proof fn lemma_source(before: Seq<Seq<char>>, source: Seq<char>, between: Seq<Seq<char>>)
    requires
        trimmed(source) == source,
        forall|i: int| 0 <= i < between.len() ==> !"##SRC "@.is_prefix_of(#[trigger] between[i]),
    ensures
        source_after(before + seq!["##SRC "@ + source] + between) == source,
    decreases between.len(),
{
    let all = before + seq!["##SRC "@ + source] + between;
    if between.len() == 0 {
        assert(all.last() == "##SRC "@ + source);
        assert("##SRC "@.is_prefix_of("##SRC "@ + source));
        assert(("##SRC "@ + source).skip("##SRC "@.len() as int) =~= source);
    } else {
        let less = between.drop_last();
        assert(all.drop_last() =~= before + seq!["##SRC "@ + source] + less);
        assert(all.last() == between[between.len() - 1]);
        assert forall|i: int| 0 <= i < less.len() implies !"##SRC "@.is_prefix_of(
            #[trigger] less[i],
        ) by {
            assert(less[i] == between[i]);
        }
        lemma_source(before, source, less);
    }
}

/// The words of a job, as `cron_line_of` sees them.
proof fn lemma_job_line(schedule: Seq<Seq<char>>, rest: Seq<Seq<char>>)
    requires
        is_schedule(schedule),
        are_words(rest),
    ensures
        ({
            let ws = schedule + rest;
            let line = joined(ws, " "@);
            &&& words_of(line) == ws
            &&& trimmed(line) == line
            &&& line.len() > 0
            &&& line[0] != '#'
            &&& line[0] == '@' <==> schedule.len() == 1
            &&& schedule.len() == 5 ==> forall|i: int| 0 <= i < 5 ==> is_cron_field(#[trigger] ws[i])
            &&& !is_setting(line)
        }),
{
    reveal_strlit(" ");
    let ws = schedule + rest;
    let line = joined(ws, " "@);
    assert forall|i: int| 0 <= i < ws.len() implies is_word(#[trigger] ws[i]) by {
        if i < schedule.len() {
            assert(ws[i] == schedule[i]);
            if schedule.len() == 5 {
                lemma_field(schedule[i]);
            }
        } else {
            assert(ws[i] == rest[i - schedule.len()]);
        }
    }
    lemma_words_joined(ws);
    lemma_joined_ends(ws);
    assert(ws[0] == schedule[0]);
    if schedule.len() == 5 {
        lemma_field(schedule[0]);
        assert forall|i: int| 0 <= i < 5 implies is_cron_field(#[trigger] ws[i]) by {
            assert(ws[i] == schedule[i]);
            lemma_field(schedule[i]);
        }
    }
    lemma_first_in(line, Class::Only('='));
    let i = first_in(line, Class::Only('='));
    if i < line.len() {
        let name = line.take(i);
        if schedule.len() == 1 {
            assert(i > 0);
            assert(name[0] == '@');
            assert(!Class::Name.holds(name[0]));
        } else {
            let n = ws[0].len() as int;
            assert(line[n] == ' ');
            assert(i > n) by {
                if i < n {
                    assert(line[i] == ws[0][i]);
                }
            }
            assert(name[n] == ' ');
            assert(!Class::Name.holds(name[n]));
        }
    }
}

/// A job in a file with a user column.
#[verifier::spinoff_prover]
proof fn lemma_job_of_user(
    file: Seq<char>,
    schedule: Seq<Seq<char>>,
    user: Seq<char>,
    command: Seq<Seq<char>>,
)
    requires
        file.len() > 0,
        file[0] == '/',
        is_schedule(schedule),
        is_word(user),
        are_words(command),
    ensures
        cron_entry_of(file, joined(schedule + (seq![user] + command), " "@)) == Some(
            CronEntryView {
                source: file,
                schedule: joined(schedule, " "@),
                user,
                command: joined(command, " "@),
            },
        ),
{
    reveal_strlit("##SRC ");
    reveal_strlit("dir:");
    let n = schedule.len() as int;
    let with = seq![user] + command;
    assert forall|i: int| 0 <= i < with.len() implies is_word(#[trigger] with[i]) by {
        if i > 0 {
            assert(with[i] == command[i - 1]);
        }
    }
    let ws = schedule + with;
    let line = joined(ws, " "@);
    lemma_job_line(schedule, with);
    assert(ws.take(n) =~= schedule);
    assert(ws[n] == user);
    assert(ws.skip(n + 1) =~= command);
    assert("dir:"@[0] == 'd');
    assert(after_prefix(file, "dir:"@) is None);
    assert("##SRC "@[0] == '#');
    assert(after_prefix(line, "##SRC "@) is None);
    assert(cron_line_of(line, true) == Some((joined(schedule, " "@), user, joined(command, " "@))));
}

/// A job in the crontab of a user.
#[verifier::spinoff_prover]
proof fn lemma_job_of_owner(
    owner: Seq<char>,
    schedule: Seq<Seq<char>>,
    command: Seq<Seq<char>>,
)
    requires
        is_schedule(schedule),
        are_words(command),
    ensures
        cron_entry_of("crontab:"@ + owner, joined(schedule + command, " "@)) == Some(
            CronEntryView {
                source: "crontab:"@ + owner,
                schedule: joined(schedule, " "@),
                user: owner,
                command: joined(command, " "@),
            },
        ),
{
    reveal_strlit("##SRC ");
    reveal_strlit("dir:");
    reveal_strlit("crontab:");
    let n = schedule.len() as int;
    let source = "crontab:"@ + owner;
    let ws = schedule + command;
    let line = joined(ws, " "@);
    lemma_job_line(schedule, command);
    assert(ws.take(n) =~= schedule);
    assert(ws.skip(n) =~= command);
    assert(source[0] == 'c');
    assert("dir:"@[0] == 'd');
    assert(after_prefix(source, "dir:"@) is None);
    assert("crontab:"@.is_prefix_of(source));
    assert(source.skip(8) =~= owner);
    assert("##SRC "@[0] == '#');
    assert(after_prefix(line, "##SRC "@) is None);
    let none: Seq<char> = seq![];
    assert(cron_line_of(line, false) == Some((joined(schedule, " "@), none, joined(command, " "@))));
}

/// A line of a crontab that is put together from a schedule, the user where the
/// crontab has that column, and the words of a command reads back as exactly these,
/// whatever stands before it.
pub proof fn law_jobs_read_back(
    before: Seq<Seq<char>>,
    between: Seq<Seq<char>>,
    file: Seq<char>,
    owner: Seq<char>,
    schedule: Seq<Seq<char>>,
    user: Seq<char>,
    command: Seq<Seq<char>>,
)
    requires
        file.len() > 0,
        file[0] == '/',
        trimmed(file) == file,
        trimmed("crontab:"@ + owner) == "crontab:"@ + owner,
        forall|i: int| 0 <= i < between.len() ==> !"##SRC "@.is_prefix_of(#[trigger] between[i]),
        is_schedule(schedule),
        is_word(user),
        are_words(command),
    ensures
        ({
            let head = before + seq!["##SRC "@ + file] + between;
            let line = joined(schedule + (seq![user] + command), " "@);
            cron_of(head.push(line)) == cron_of(head).push(
                CronEntryView {
                    source: file,
                    schedule: joined(schedule, " "@),
                    user,
                    command: joined(command, " "@),
                },
            )
        }),
        ({
            let head = before + seq!["##SRC "@ + ("crontab:"@ + owner)] + between;
            let line = joined(schedule + command, " "@);
            cron_of(head.push(line)) == cron_of(head).push(
                CronEntryView {
                    source: "crontab:"@ + owner,
                    schedule: joined(schedule, " "@),
                    user: owner,
                    command: joined(command, " "@),
                },
            )
        }),
{
    let one = joined(schedule + (seq![user] + command), " "@);
    let two = joined(schedule + command, " "@);
    let in_file = before + seq!["##SRC "@ + file] + between;
    let in_table = before + seq!["##SRC "@ + ("crontab:"@ + owner)] + between;
    lemma_source(before, file, between);
    lemma_job_of_user(file, schedule, user, command);
    assert(in_file.push(one).drop_last() =~= in_file);
    lemma_source(before, "crontab:"@ + owner, between);
    lemma_job_of_owner(owner, schedule, command);
    assert(in_table.push(two).drop_last() =~= in_table);
}

/// In a crontab, a setting is no job; a comment and a blank line are none anywhere, and
/// nothing is one before the first source is named.
pub proof fn law_other_lines_are_no_jobs(
    before: Seq<Seq<char>>,
    source: Seq<char>,
    between: Seq<Seq<char>>,
    name: Seq<char>,
    value: Seq<char>,
    text: Seq<char>,
)
    requires
        trimmed(source) == source,
        !"dir:"@.is_prefix_of(source),
        forall|i: int| 0 <= i < between.len() ==> !"##SRC "@.is_prefix_of(#[trigger] between[i]),
        name.len() > 0,
        forall|i: int|
            0 <= i < name.len() ==> is_digit(#[trigger] name[i]) || is_alpha(name[i]) || name[i] == '_',
        !is_digit(name[0]),
        value.len() > 0 ==> !is_space(value.last()),
    ensures
        ({
            let head = before + seq!["##SRC "@ + source] + between;
            cron_of(head.push(name + "="@ + value)) == cron_of(head)
        }),
        trimmed(text).len() == 0 || trimmed(text)[0] == '#' ==> cron_of(before.push(text)) == cron_of(
            before,
        ),
        cron_of(between) =~= seq![],
{
    reveal_strlit("##SRC ");
    reveal_strlit("=");
    let head = before + seq!["##SRC "@ + source] + between;
    let line = name + "="@ + value;
    assert(head.push(line).drop_last() =~= head);
    assert(before.push(text).drop_last() =~= before);
    assert forall|j: int| 0 <= j < name.len() implies !Class::Only('=').holds(#[trigger] line[j]) by {
        assert(line[j] == name[j]);
    }
    assert(line[name.len() as int] == '=');
    lemma_first_in_is(line, Class::Only('='), name.len() as int);
    assert(line.take(name.len() as int) =~= name);
    assert(line[0] == name[0]);
    assert(!is_space(name[0]));
    if value.len() > 0 {
        assert(line.last() == value.last());
    } else {
        assert(line.last() == '=');
    }
    lemma_trimmed_already(line);
    assert(all_in(name, Class::Name)) by {
        assert forall|i: int| 0 <= i < name.len() implies Class::Name.holds(#[trigger] name[i]) by {
            assert(is_digit(name[i]) || is_alpha(name[i]) || name[i] == '_');
        }
    }
    assert(is_setting(line));
    assert("##SRC "@[0] == '#');
    lemma_source(before, source, between);
    lemma_no_source(between);
}

proof fn lemma_no_source(lines: Seq<Seq<char>>)
    requires
        forall|i: int| 0 <= i < lines.len() ==> !"##SRC "@.is_prefix_of(#[trigger] lines[i]),
    ensures
        source_after(lines) =~= seq![],
        cron_of(lines) =~= seq![],
    decreases lines.len(),
{
    if lines.len() > 0 {
        let rest = lines.drop_last();
        assert(lines.last() == lines[lines.len() - 1]);
        assert forall|i: int| 0 <= i < rest.len() implies !"##SRC "@.is_prefix_of(
            #[trigger] rest[i],
        ) by {
            assert(rest[i] == lines[i]);
        }
        lemma_no_source(rest);
    }
}

/// What a directory is named after says how often it runs.
proof fn lemma_cadence(parent: Seq<char>, name: Seq<char>)
    requires
        !name.contains('.'),
    ensures
        cadence(parent + "."@ + name) == (if name == "hourly"@ || name == "weekly"@ || name
            == "monthly"@ {
            name
        } else {
            "daily"@
        }),
{
    reveal_strlit(".");
    let dir = parent + "."@ + name;
    let k = Class::Only('.');
    lemma_last_in(dir, k);
    let i = last_in(dir, k);
    let n = parent.len() as int;
    assert(dir[n] == '.');
    assert(i == n) by {
        if i > n {
            assert(dir[i] == name[i - n - 1]);
        } else if i < n {
            assert(k.holds(dir[n]));
        }
    }
    assert(dir.skip(n + 1) =~= name);
}

#[verifier::spinoff_prover]
proof fn lemma_script(dir: Seq<char>, script: Seq<char>)
    requires
        is_word(script),
        script[0] != '#',
        !script.contains('/'),
    ensures
        cron_entry_of("dir:"@ + dir, script) == Some(
            CronEntryView {
                source: dir,
                schedule: "@"@ + cadence(dir),
                user: "root"@,
                command: dir + "/"@ + script,
            },
        ),
{
    assert(script.last() == script[script.len() - 1]);
    lemma_trimmed_already(script);
    assert(!script.contains(' ')) by {
        if script.contains(' ') {
            let i = script.index_of(' ');
            assert(!is_space(script[i]));
        }
    }
    law_drop_ins_are_jobs(dir, script);
}

/// A script in a run-parts directory is a job of root's, at the cadence that the
/// directory is named after, which is daily where it is named otherwise.
pub proof fn law_scripts_read_back(
    before: Seq<Seq<char>>,
    between: Seq<Seq<char>>,
    parent: Seq<char>,
    name: Seq<char>,
    script: Seq<char>,
)
    requires
        is_word(name),
        !name.contains('.'),
        forall|i: int| 0 <= i < between.len() ==> !"##SRC "@.is_prefix_of(#[trigger] between[i]),
        is_word(script),
        script[0] != '#',
        !script.contains('/'),
    ensures
        ({
            let dir = parent + "."@ + name;
            let head = before + seq!["##SRC "@ + ("dir:"@ + dir)] + between;
            let said = if name == "hourly"@ || name == "weekly"@ || name == "monthly"@ {
                name
            } else {
                "daily"@
            };
            cron_of(head.push(script)) == cron_of(head).push(
                CronEntryView {
                    source: dir,
                    schedule: "@"@ + said,
                    user: "root"@,
                    command: dir + "/"@ + script,
                },
            )
        }),
{
    reveal_strlit("dir:");
    reveal_strlit(".");
    let dir = parent + "."@ + name;
    let source = "dir:"@ + dir;
    let head = before + seq!["##SRC "@ + source] + between;
    assert(source[0] == 'd');
    assert(source.last() == name.last());
    assert(name.last() == name[name.len() - 1]);
    lemma_trimmed_already(source);
    lemma_source(before, source, between);
    lemma_script(dir, script);
    lemma_cadence(parent, name);
    assert(head.push(script).drop_last() =~= head);
}

// --------------------------------------------------------------- timers ----

/// A word of letters and digits.
pub open spec fn is_plain(w: Seq<char>) -> bool {
    w.len() > 0 && forall|i: int| 0 <= i < w.len() ==> is_digit(#[trigger] w[i]) || is_alpha(w[i])
}

/// Words of a duration, such as `2h` and `30min`, but not the word `left`.
pub open spec fn is_duration(d: Seq<Seq<char>>) -> bool {
    forall|i: int| 0 <= i < d.len() ==> is_plain(#[trigger] d[i]) && d[i] != "left"@
}

/// Placeholders for what there is not.
pub open spec fn is_absent(p: Seq<Seq<char>>) -> bool {
    forall|i: int| 0 <= i < p.len() ==> (#[trigger] p[i] == "n/a"@ || p[i] == "-"@)
}

/// The four words of a timestamp: a weekday, a date, a time of day and a zone.
pub open spec fn is_written_stamp(t: Seq<Seq<char>>) -> bool {
    &&& t.len() == 4
    &&& t[0].len() == 3 && is_plain(t[0]) && forall|i: int|
        0 <= i < 3 ==> is_alpha(#[trigger] t[0][i])
    &&& t[1].len() == 10 && forall|i: int|
        0 <= i < 10 ==> if i == 4 || i == 7 {
            #[trigger] t[1][i] == '-'
        } else {
            is_digit(t[1][i])
        }
    &&& t[2].len() == 8 && forall|i: int|
        0 <= i < 8 ==> if i == 2 || i == 5 {
            #[trigger] t[2][i] == ':'
        } else {
            is_digit(t[2][i])
        }
    &&& t[3].len() > 0 && forall|i: int|
        0 <= i < t[3].len() ==> is_digit(#[trigger] t[3][i]) || is_alpha(t[3][i]) || t[3][i] == '+'
            || t[3][i] == '-'
}

proof fn lemma_written_stamp(t: Seq<Seq<char>>)
    requires
        is_written_stamp(t),
    ensures
        is_stamp(t, 0),
        is_stamp_words(t),
{
    reveal_strlit(".timer");
    let d = t[1];
    reveal_with_fuel(count_in, 11);
    let k = Class::Digit;
    assert(d[0] != '-' && d[1] != '-');
    assert(k.holds(d[0]) && k.holds(d[1]) && k.holds(d[2]) && k.holds(d[3]) && k.holds(d[5]) && k.holds(
        d[6],
    ) && k.holds(d[8]) && k.holds(d[9]) && d[4] == '-' && d[7] == '-');
    lemma_count_ten(d);
    let c = t[2];
    assert(c[2] == ':' && c[5] == ':');
    assert(is_ascii_chars(c)) by {
        assert forall|i: int| 0 <= i < c.len() implies '\0' <= #[trigger] c[i] <= '\u{7f}' by {
            assert(c[i] == ':' || is_digit(c[i]));
        }
    }
    is_ascii_chars_encode_utf8(c);
    assert forall|i: int| 0 <= i < 4 implies is_word(#[trigger] t[i]) && !".timer"@.is_suffix_of(
        t[i],
    ) by {
        let w = t[i];
        assert forall|j: int| 0 <= j < w.len() implies #[trigger] w[j] != '.' && !is_space(w[j]) by {
            if i == 0 {
                assert(is_alpha(t[0][j]));
            } else if i == 1 {
                assert(is_digit(t[1][j]) || t[1][j] == '-');
            } else if i == 2 {
                assert(is_digit(t[2][j]) || t[2][j] == ':');
            } else {
                assert(is_digit(t[3][j]) || is_alpha(t[3][j]) || t[3][j] == '+' || t[3][j] == '-');
            }
        }
        lemma_no_timer(w);
    }
}

/// A word without a point is not the name of a timer.
proof fn lemma_no_timer(w: Seq<char>)
    requires
        forall|j: int| 0 <= j < w.len() ==> #[trigger] w[j] != '.',
    ensures
        !".timer"@.is_suffix_of(w),
{
    reveal_strlit(".timer");
    if ".timer"@.is_suffix_of(w) {
        assert(w[w.len() - 6] == ".timer"@[0]);
    }
}

proof fn lemma_count_ten(d: Seq<char>)
    requires
        d.len() == 10,
        forall|i: int|
            0 <= i < 10 ==> if i == 4 || i == 7 {
                #[trigger] d[i] == '-'
            } else {
                is_digit(d[i])
            },
    ensures
        count_in(d, Class::Digit) == 8,
{
    let k = Class::Digit;
    let d9 = d.drop_last();
    let d8 = d9.drop_last();
    let d7 = d8.drop_last();
    let d6 = d7.drop_last();
    let d5 = d6.drop_last();
    let d4 = d5.drop_last();
    let d3 = d4.drop_last();
    let d2 = d3.drop_last();
    let d1 = d2.drop_last();
    assert(k.holds(d[9]) && k.holds(d[8]) && !k.holds(d[7]) && k.holds(d[6]) && k.holds(d[5])
        && !k.holds(d[4]) && k.holds(d[3]) && k.holds(d[2]) && k.holds(d[1]) && k.holds(d[0]));
    assert(count_in(d1.drop_last(), k) == 0);
    assert(count_in(d1, k) == 1);
    assert(count_in(d2, k) == 2);
    assert(count_in(d3, k) == 3);
    assert(count_in(d4, k) == 4);
    assert(count_in(d5, k) == 4);
    assert(count_in(d6, k) == 5);
    assert(count_in(d7, k) == 6);
    assert(count_in(d8, k) == 6);
    assert(count_in(d9, k) == 7);
}

proof fn lemma_duration(d: Seq<Seq<char>>)
    requires
        is_duration(d),
    ensures
        forall|i: int| 0 <= i < d.len() ==> is_span_word(#[trigger] d[i]),
{
    reveal_strlit("-");
    reveal_strlit("n/a");
    reveal_strlit("*");
    assert forall|i: int| 0 <= i < d.len() implies is_span_word(#[trigger] d[i]) by {
        let w = d[i];
        assert(is_plain(w) && w != "left"@);
        assert forall|j: int| 0 <= j < w.len() implies #[trigger] w[j] != '.' && !is_space(w[j])
            && w[j] != '-' && w[j] != '/' && w[j] != '*' by {
            assert(is_digit(w[j]) || is_alpha(w[j]));
        }
        lemma_no_timer(w);
        assert(w != "-"@) by {
            assert("-"@[0] == '-');
        }
        assert(w != "*"@) by {
            assert("*"@[0] == '*');
        }
        assert(w != "n/a"@) by {
            assert("n/a"@[1] == '/');
        }
    }
}

proof fn lemma_absent(p: Seq<Seq<char>>)
    requires
        is_absent(p),
    ensures
        telling(p) =~= seq![],
        forall|i: int|
            0 <= i < p.len() ==> is_word(#[trigger] p[i]) && !is_date(p[i]) && !".timer"@.is_suffix_of(
                p[i],
            ),
    decreases p.len(),
{
    reveal_strlit("-");
    reveal_strlit("n/a");
    reveal_strlit(".timer");
    assert forall|i: int| 0 <= i < p.len() implies is_word(#[trigger] p[i]) && !is_date(p[i])
        && !".timer"@.is_suffix_of(p[i]) by {
        assert(p[i] == "n/a"@ || p[i] == "-"@);
    }
    if p.len() > 0 {
        assert(p.last() == p[p.len() - 1]);
        let r = p.drop_last();
        assert forall|i: int| 0 <= i < r.len() implies (#[trigger] r[i] == "n/a"@ || r[i] == "-"@) by {
            assert(r[i] == p[i]);
        }
        lemma_absent(r);
    }
}

/// One timestamp among words that are no dates is found where it stands.
proof fn lemma_one_stamp(
    before: Seq<Seq<char>>,
    stamp: Seq<Seq<char>>,
    after: Seq<Seq<char>>,
    n: nat,
)
    requires
        stamp.len() == 4 && is_stamp(stamp, 0),
        forall|i: int| 0 <= i < before.len() ==> !is_date(#[trigger] before[i]),
        forall|i: int| 0 <= i < after.len() ==> !is_date(#[trigger] after[i]),
        n <= (before + stamp + after).len(),
    ensures
        stamps_of(before + stamp + after, n) == (if n <= before.len() {
            seq![]
        } else {
            seq![before.len() as int]
        }),
    decreases n,
{
    let t = before + stamp + after;
    let m = before.len();
    if n > 0 {
        lemma_one_stamp(before, stamp, after, (n - 1) as nat);
        let i = n - 1;
        if i < m {
            if i + 1 < m {
                assert(t[i + 1] == before[i + 1]);
            } else {
                assert(t[i + 1] == stamp[0]);
            }
            assert(!is_date(t[i + 1]));
        } else if i == m {
            assert(t[i] == stamp[0] && t[i + 1] == stamp[1] && t[i + 2] == stamp[2] && t[i + 3]
                == stamp[3]);
            assert(stamps_of(t, n) =~= seq![m as int]);
        } else if i >= m + 4 {
            if i + 1 < t.len() {
                assert(t[i + 1] == after[i + 1 - m - 4]);
            }
        }
    }
}

proof fn lemma_no_stamp(t: Seq<Seq<char>>, n: nat)
    requires
        forall|i: int| 0 <= i < t.len() ==> !is_date(#[trigger] t[i]),
        n <= t.len(),
    ensures
        stamps_of(t, n) =~= seq![],
    decreases n,
{
    if n > 0 {
        lemma_no_stamp(t, (n - 1) as nat);
        if n < t.len() {
            assert(!is_date(t[n as int]));
        }
    }
}

/// A line of words is a line, and its one row is the row of those words.
proof fn lemma_timer_row_alone(head: Seq<Seq<char>>, unit: Seq<char>, activates: Seq<Seq<char>>)
    requires
        forall|i: int|
            0 <= i < head.len() ==> is_word(#[trigger] head[i]) && !".timer"@.is_suffix_of(head[i]),
        is_word(unit),
        ".timer"@.is_suffix_of(unit),
        forall|i: int| 0 <= i < activates.len() ==> is_word(#[trigger] activates[i]),
    ensures
        ({
            let ws = head + seq![unit] + activates;
            let line = joined(ws, " "@);
            &&& words_of(line) == ws
            &&& timer_column(ws) == head.len()
            &&& ws.take(head.len() as int) == head
            &&& ws[head.len() as int] == unit
            &&& ws.skip((head.len() + 1) as int) == activates
            &&& lines_of(line) == seq![line]
            &&& timer_row_of(line) is Some
            &&& lines_of(line).filter_map(timer_rule()) == seq![timer_row_of(line)->0]
        }),
{
    let ws = head + seq![unit] + activates;
    let line = joined(ws, " "@);
    assert forall|i: int| 0 <= i < ws.len() implies is_word(#[trigger] ws[i]) by {
        if i < head.len() {
            assert(ws[i] == head[i]);
        } else if i > head.len() {
            assert(ws[i] == activates[i - head.len() - 1]);
        }
    }
    lemma_words_joined(ws);
    lemma_single_line(line);
    lemma_timer_column(head, unit, activates);
    assert(ws.take(head.len() as int) =~= head);
    assert(ws.skip((head.len() + 1) as int) =~= activates);
    let one = seq![line];
    assert(one.drop_last() =~= seq![]);
    assert(one.last() == line);
    assert(one.drop_last().filter_map(timer_rule()) =~= seq![]);
    assert(one.filter_map(timer_rule()) =~= seq![timer_row_of(line)->0]);
}

/// The rows that a line of words gives.
pub open spec fn timers_in(words: Seq<Seq<char>>) -> Seq<TimerView> {
    lines_of(joined(words, " "@)).filter_map(timer_rule())
}

/// A timer that is due and has not run: one timestamp, a duration with or without the
/// word `left`, and placeholders. The timestamp is the next run.
pub proof fn law_due_timers_read_back(
    next: Seq<Seq<char>>,
    left: Seq<Seq<char>>,
    absent: Seq<Seq<char>>,
    unit: Seq<char>,
    activates: Seq<Seq<char>>,
)
    requires
        is_written_stamp(next),
        is_duration(left),
        is_absent(absent),
        is_word(unit),
        ".timer"@.is_suffix_of(unit),
        forall|i: int| 0 <= i < activates.len() ==> is_word(#[trigger] activates[i]),
    ensures
        ({
            let said = TimerView {
                unit,
                activates: joined(activates, " "@),
                next: joined(next, " "@),
                left: joined(left, " "@),
                last: "-"@,
                passed: seq![],
            };
            &&& timers_in(next + left + absent + seq![unit] + activates) == seq![said]
            &&& timers_in(next + left.push("left"@) + absent + seq![unit] + activates) == seq![said]
        }),
{
    reveal_strlit("left");
    lemma_duration(left);
    lemma_telling_all(left);
    let more = left.push("left"@);
    assert(more.drop_last() =~= left);
    assert(telling(more) == left);
    lemma_due_timer(next, left, left, absent, unit, activates);
    assert forall|i: int| 0 <= i < more.len() implies is_word(#[trigger] more[i]) && !is_date(more[i])
        && !".timer"@.is_suffix_of(more[i]) by {
        if i < left.len() {
            assert(more[i] == left[i]);
            assert(is_span_word(left[i]));
        } else {
            lemma_no_timer("left"@);
        }
    }
    lemma_due_timer(next, more, left, absent, unit, activates);
}

proof fn lemma_due_timer(
    next: Seq<Seq<char>>,
    gap: Seq<Seq<char>>,
    left: Seq<Seq<char>>,
    absent: Seq<Seq<char>>,
    unit: Seq<char>,
    activates: Seq<Seq<char>>,
)
    requires
        is_written_stamp(next),
        forall|i: int|
            0 <= i < gap.len() ==> is_word(#[trigger] gap[i]) && !is_date(gap[i])
                && !".timer"@.is_suffix_of(gap[i]),
        telling(gap) == left,
        is_absent(absent),
        is_word(unit),
        ".timer"@.is_suffix_of(unit),
        forall|i: int| 0 <= i < activates.len() ==> is_word(#[trigger] activates[i]),
    ensures
        timers_in(next + gap + absent + seq![unit] + activates) == seq![
            TimerView {
                unit,
                activates: joined(activates, " "@),
                next: joined(next, " "@),
                left: joined(left, " "@),
                last: "-"@,
                passed: seq![],
            },
        ],
{
    lemma_written_stamp(next);
    lemma_absent(absent);
    let after = gap + absent;
    let head = next + gap + absent;
    let none: Seq<Seq<char>> = seq![];
    assert forall|i: int| 0 <= i < after.len() implies is_word(#[trigger] after[i]) && !is_date(
        after[i],
    ) && !".timer"@.is_suffix_of(after[i]) by {
        if i < gap.len() {
            assert(after[i] == gap[i]);
        } else {
            assert(after[i] == absent[i - gap.len()]);
        }
    }
    assert forall|i: int| 0 <= i < head.len() implies is_word(#[trigger] head[i])
        && !".timer"@.is_suffix_of(head[i]) by {
        if i < 4 {
            assert(head[i] == next[i]);
        } else {
            assert(head[i] == after[i - 4]);
        }
    }
    lemma_timer_row_alone(head, unit, activates);
    assert(head =~= none + next + after);
    lemma_one_stamp(none, next, after, head.len());
    assert(head.subrange(0, 4) =~= next);
    assert(head.subrange(4, head.len() as int) =~= after);
    lemma_telling_without(gap, absent);
    if after.len() == 0 {
        assert(telling(gap) =~= seq![]);
        assert(joined(left, " "@) =~= seq![]);
    }
}

proof fn lemma_telling_without(d: Seq<Seq<char>>, p: Seq<Seq<char>>)
    requires
        is_absent(p),
    ensures
        telling(d + p) == telling(d),
    decreases p.len(),
{
    if p.len() == 0 {
        assert(d + p =~= d);
    } else {
        assert((d + p).drop_last() =~= d + p.drop_last());
        assert((d + p).last() == p[p.len() - 1]);
        let r = p.drop_last();
        assert forall|i: int| 0 <= i < r.len() implies (#[trigger] r[i] == "n/a"@ || r[i] == "-"@) by {
            assert(r[i] == p[i]);
        }
        lemma_telling_without(d, r);
    }
}

/// A timer that has run and is not due again: placeholders, then one timestamp and how
/// long ago that was. The timestamp is the last run. Where there are only placeholders,
/// the timer has neither.
pub proof fn law_spent_timers_read_back(
    absent: Seq<Seq<char>>,
    last: Seq<Seq<char>>,
    passed: Seq<Seq<char>>,
    unit: Seq<char>,
    activates: Seq<Seq<char>>,
)
    requires
        is_absent(absent),
        absent.len() > 0,
        is_written_stamp(last),
        is_duration(passed),
        is_word(unit),
        ".timer"@.is_suffix_of(unit),
        forall|i: int| 0 <= i < activates.len() ==> is_word(#[trigger] activates[i]),
    ensures
        timers_in(absent + last + passed + seq![unit] + activates) == seq![
            TimerView {
                unit,
                activates: joined(activates, " "@),
                next: "-"@,
                left: seq![],
                last: joined(last, " "@),
                passed: joined(passed, " "@),
            },
        ],
        timers_in(absent + seq![unit] + activates) == seq![
            TimerView {
                unit,
                activates: joined(activates, " "@),
                next: "-"@,
                left: seq![],
                last: "-"@,
                passed: seq![],
            },
        ],
{
    lemma_written_stamp(last);
    lemma_absent(absent);
    lemma_duration(passed);
    lemma_telling_all(passed);
    let m = absent.len() as int;
    {
        let head = absent + last + passed;
        assert forall|i: int| 0 <= i < head.len() implies is_word(#[trigger] head[i])
            && !".timer"@.is_suffix_of(head[i]) by {
            if i < m {
                assert(head[i] == absent[i]);
            } else if i < m + 4 {
                assert(head[i] == last[i - m]);
            } else {
                assert(head[i] == passed[i - m - 4]);
                assert(is_span_word(passed[i - m - 4]));
            }
        }
        assert forall|i: int| 0 <= i < passed.len() implies !is_date(#[trigger] passed[i]) by {
            assert(is_span_word(passed[i]));
        }
        lemma_timer_row_alone(head, unit, activates);
        lemma_one_stamp(absent, last, passed, head.len());
        assert(head.subrange(m, m + 4) =~= last);
        assert(head.subrange(0, m) =~= absent);
        assert(head.subrange(m + 4, head.len() as int) =~= passed);
        assert(joined(telling(absent), " "@) =~= seq![]);
        if passed.len() == 0 {
            assert(joined(passed, " "@) =~= seq![]);
        }
    }
    {
        lemma_timer_row_alone(absent, unit, activates);
        lemma_no_stamp(absent, absent.len());
        assert(absent.subrange(0, m) =~= absent);
        assert(joined(telling(absent), " "@) =~= seq![]);
    }
}

/// A timer that is due and has run: two timestamps, each with its duration. The first
/// is the next run, the second the last.
pub proof fn law_running_timers_read_back(
    next: Seq<Seq<char>>,
    left: Seq<Seq<char>>,
    last: Seq<Seq<char>>,
    passed: Seq<Seq<char>>,
    unit: Seq<char>,
    activates: Seq<Seq<char>>,
)
    requires
        is_written_stamp(next),
        is_duration(left),
        is_written_stamp(last),
        is_duration(passed),
        is_word(unit),
        ".timer"@.is_suffix_of(unit),
        forall|i: int| 0 <= i < activates.len() ==> is_word(#[trigger] activates[i]),
    ensures
        ({
            let ago = passed.push("ago"@);
            let said = TimerView {
                unit,
                activates: joined(activates, " "@),
                next: joined(next, " "@),
                left: joined(left, " "@),
                last: joined(last, " "@),
                passed: joined(ago, " "@),
            };
            &&& timers_in(next + left + last + ago + seq![unit] + activates) == seq![said]
            &&& timers_in(next + left.push("left"@) + last + ago + seq![unit] + activates) == seq![said]
        }),
{
    lemma_written_stamp(next);
    lemma_written_stamp(last);
    lemma_duration(left);
    lemma_duration(passed);
    law_timer_generations_read_the_same(next, left, last, passed, unit, activates);
}

} // verus!
