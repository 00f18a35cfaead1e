//! What becomes of the sections of a run.

use crate::columns::{is_cell, law_containers_read_back, lemma_two_lines};
use crate::findings::findings_of;
use crate::fmt::dec_int;
use crate::lines::{is_word, lemma_joined_front, lemma_single_line};
use crate::model::{ContainerView, ProbeStatus};
use crate::parse::{container_rule, mappings_of};
use crate::probe::{
    assembled, blank_audit, container_body, first_words, holds_answer, law_every_probe_is_recorded,
    law_exit_codes_decide, law_words_decide, note_for, outcome_of, payload_rule, probes_for,
    runtime_of, CollectOptionsView, ProbeSpecView,
};
use crate::text::{
    contains_text, joined, lemma_holds_last, lemma_holds_through, lines_of, lowercase, trimmed,
};
use crate::told::lemma_holds_middle;
use vstd::prelude::*;

verus! {

/// An audit names its target, and every probe in it stands where it was asked, with its
/// id, label and command, and with the exit code and the output of its section; one
/// without a section failed.
pub proof fn law_outcomes_are_the_sections(
    target: Seq<char>,
    specs: Seq<ProbeSpecView>,
    sections: Map<Seq<char>, (Seq<char>, i32)>,
    duration_ms: u64,
    collected_at: Seq<char>,
    i: int,
)
    requires
        0 <= i < specs.len(),
    ensures
        ({
            let a = assembled(target, specs, sections, duration_ms, collected_at);
            let p = a.probes[i];
            let s = specs[i];
            &&& a.probes.len() == specs.len()
            &&& p.id == s.id
            &&& p.label == s.label
            &&& p.command == s.display
            &&& sections.dom().contains(s.id) ==> p.raw == sections[s.id].0 && p.exit_code
                == sections[s.id].1
            &&& !sections.dom().contains(s.id) ==> p.status is Failed && p.exit_code == -1
                && p.raw.len() == 0 && p.note == "probe produced no output section"@
        }),
{
    let start = blank_audit(target, collected_at, duration_ms);
    law_every_probe_is_recorded(start, specs, sections);
    let outcomes = Seq::new(specs.len(), |k: int| outcome_of(specs[k], sections));
    assert(start.probes + outcomes =~= outcomes);
}

/// What came of a probe with a section is decided by that section and by whether the
/// probe routinely fails in part.
pub proof fn law_outcomes_follow_the_exit_code(
    spec: ProbeSpecView,
    sections: Map<Seq<char>, (Seq<char>, i32)>,
)
    requires
        sections.dom().contains(spec.id),
        trimmed(sections[spec.id].0) != "##SKIPPED"@,
    ensures
        ({
            let (raw, code) = sections[spec.id];
            let p = outcome_of(spec, sections);
            &&& code == 0 && trimmed(raw).len() > 0 ==> p.status is Complete && p.note.len() == 0
            &&& code == 0 && trimmed(raw).len() == 0 ==> p.status is Empty && p.note.len() == 0
            &&& code == 127 ==> p.status is Unsupported && p.note == first_words(lines_of(raw))
            &&& code != 0 && code != 127 && !spec.tolerates_partial ==> !(p.status is Partial)
                && !p.status.was_seen() && p.note == first_words(lines_of(raw))
            &&& code != 0 && code != 127 && spec.tolerates_partial && holds_answer(raw) && trimmed(
                raw,
            ).len() > 0 ==> p.status is Partial
            &&& contains_text(lowercase(raw), "permission denied"@) && !contains_text(
                lowercase(raw),
                "not found"@,
            ) && !contains_text(lowercase(raw), "no such file or directory"@) && code != 0 && code
                != 127 && !spec.tolerates_partial ==> p.status is Denied
        }),
{
    let (raw, code) = sections[spec.id];
    let none: Seq<char> = seq![];
    law_exit_codes_decide(raw, lowercase(raw), code, spec.tolerates_partial);
    if code != 0 && code != 127 {
        law_words_decide(raw, lowercase(raw), code);
    }
}

/// Ten probes are asked, in this order; only the sizes of directories and the crontabs
/// may be answered in part, and the sizes are not asked for where they are to be skipped.
pub proof fn law_what_is_asked(opts: CollectOptionsView)
    ensures
        ({
            let p = probes_for(opts);
            &&& p.len() == 10
            &&& p[0].id == "host"@ && p[1].id == "listeners"@ && p[2].id == "containers"@ && p[3].id
                == "services"@ && p[4].id == "unitfiles"@ && p[5].id == "timers"@ && p[6].id == "df"@
                && p[7].id == "inodes"@ && p[8].id == "du"@ && p[9].id == "cron"@
            &&& forall|i: int|
                0 <= i < 10 ==> (#[trigger] p[i]).tolerates_partial == (i == 8 || i == 9)
            &&& p[1].display == "ss -tulnp"@ && p[2].display == "docker ps -a"@ && p[6].display
                == "df -hPT"@ && p[7].script == "df -iP"@
            &&& opts.skip_du ==> p[8].script == "echo '##SKIPPED'"@
        }),
{
}

/// The findings of an audit are those of what it holds.
pub proof fn law_audits_are_analysed(
    target: Seq<char>,
    specs: Seq<ProbeSpecView>,
    sections: Map<Seq<char>, (Seq<char>, i32)>,
    duration_ms: u64,
    collected_at: Seq<char>,
)
    ensures
        ({
            let a = assembled(target, specs, sections, duration_ms, collected_at);
            a.findings == findings_of(a)
        }),
{
}

/// The rows of a section of containers are the containers, and its first line says which
/// runtime they are of.
pub proof fn law_container_sections_are_read(
    podman: bool,
    id: Seq<char>,
    image: Seq<char>,
    name: Seq<char>,
    state: Seq<char>,
    status: Seq<char>,
    ports: Seq<char>,
    created: Seq<char>,
)
    requires
        is_word(id),
        id[0] != '#',
        is_cell(id) && is_cell(image) && is_cell(name) && is_cell(state) && is_cell(status) && is_cell(
            ports,
        ) && is_cell(created),
        ({
            let row = joined(seq![id, image, name, state, status, ports, created], seq!['\t']);
            &&& forall|j: int| 0 <= j < row.len() ==> #[trigger] row[j] != '\n'
            &&& !contains_text("##RUNTIME docker\n"@ + row, "##RUNTIME podman"@)
        }),
    ensures
        ({
            let row = joined(seq![id, image, name, state, status, ports, created], seq!['\t']);
            let raw = if podman {
                "##RUNTIME podman"@ + "\n"@ + row
            } else {
                "##RUNTIME docker"@ + "\n"@ + row
            };
            lines_of(container_body(raw)).filter_map(container_rule(runtime_of(raw))) == seq![
                ContainerView {
                    runtime: if podman {
                        "podman"@
                    } else {
                        "docker"@
                    },
                    id,
                    name,
                    image,
                    state: lowercase(state),
                    status,
                    created,
                    ports: mappings_of(ports),
                    ports_raw: ports,
                },
            ]
        }),
{
    reveal_strlit("##RUNTIME podman");
    reveal_strlit("##RUNTIME docker");
    reveal_strlit("##RUNTIME docker\n");
    reveal_strlit("##RUNTIME");
    reveal_strlit("\n");
    let f = seq![id, image, name, state, status, ports, created];
    let row = joined(f, seq!['\t']);
    let tag = if podman {
        "##RUNTIME podman"@
    } else {
        "##RUNTIME docker"@
    };
    let raw = tag + "\n"@ + row;
    let runtime = if podman {
        "podman"@
    } else {
        "docker"@
    };
    law_containers_read_back(runtime, id, image, name, state, status, ports, created);
    lemma_joined_front(id, f.skip(1), seq!['\t']);
    assert(f =~= seq![id] + f.skip(1));
    assert(row[0] == id[0]);
    lemma_two_lines(tag, row);
    let two = seq![tag, row];
    let p = payload_rule();
    assert("##RUNTIME"@.is_prefix_of(tag)) by {
        assert("##RUNTIME"@ =~= tag.take(9));
    }
    assert(!"##RUNTIME"@.is_prefix_of(row)) by {
        if "##RUNTIME"@.is_prefix_of(row) {
            assert(row[0] == "##RUNTIME"@[0]);
        }
    }
    assert(p(tag) is None);
    assert(p(row) == Some(row));
    assert(two.drop_last() =~= seq![tag]);
    assert(two.last() == row);
    let one = seq![tag];
    assert(one.drop_last() =~= seq![]);
    assert(one.last() == tag);
    assert(one.drop_last().filter_map(p) =~= seq![]);
    assert(one.filter_map(p) =~= seq![]);
    assert(two.filter_map(p) =~= seq![row]);
    assert(container_body(raw) == row);
    lemma_single_line(row);
    assert(runtime_of(raw) == runtime) by {
        if podman {
            let none: Seq<char> = seq![];
            assert(raw =~= none + tag + ("\n"@ + row));
            lemma_holds_middle(none, tag, "\n"@ + row);
        } else {
            assert(raw =~= "##RUNTIME docker\n"@ + row);
        }
    }
    let g = container_rule(runtime);
    let r = seq![row];
    assert(r.drop_last() =~= seq![]);
    assert(r.last() == row);
    assert(r.drop_last().filter_map(g) =~= seq![]);
    assert(r.filter_map(g) =~= seq![g(row)->0]);
}

/// A note is the first line that says something: what stands before it is blank or a tag
/// of the probe, and what follows does not matter.
pub proof fn law_notes_are_the_first_words(
    before: Seq<Seq<char>>,
    line: Seq<char>,
    after: Seq<Seq<char>>,
)
    requires
        forall|i: int|
            0 <= i < before.len() ==> trimmed(#[trigger] before[i]).len() == 0
                || "##RUNTIME"@.is_prefix_of(before[i]) || "##SRC"@.is_prefix_of(before[i]),
        trimmed(line).len() > 0,
        !"##RUNTIME"@.is_prefix_of(line),
        !"##SRC"@.is_prefix_of(line),
    ensures
        first_words(before + seq![line] + after) == trimmed(line),
    decreases before.len(),
{
    let all = before + seq![line] + after;
    if before.len() == 0 {
        assert(all[0] == line);
    } else {
        let rest = before.skip(1);
        assert(all[0] == before[0]);
        assert forall|i: int| 0 <= i < rest.len() implies trimmed(#[trigger] rest[i]).len() == 0
            || "##RUNTIME"@.is_prefix_of(rest[i]) || "##SRC"@.is_prefix_of(rest[i]) by {
            assert(rest[i] == before[i + 1]);
        }
        law_notes_are_the_first_words(rest, line, after);
        assert(all.skip(1) =~= rest + seq![line] + after);
    }
}

/// What was answered in part is told with the exit code, and a probe that was skipped
/// with the reason.
pub proof fn law_notes_name_the_gap(raw: Seq<char>, code: i32)
    ensures
        contains_text(note_for(ProbeStatus::Partial, raw, code), dec_int(code as int)),
        contains_text(note_for(ProbeStatus::Partial, raw, code), "unreadable"@),
        contains_text(note_for(ProbeStatus::Skipped, raw, code), "--no-du"@),
{
    reveal_strlit("; some paths were unreadable, the rest is shown");
    reveal_strlit("; some paths were ");
    reveal_strlit("unreadable");
    reveal_strlit(", the rest is shown");
    reveal_strlit("skipped by --no-du");
    reveal_strlit("skipped by ");
    reveal_strlit("--no-du");
    let n = dec_int(code as int);
    let tail = "; some paths were unreadable, the rest is shown"@;
    lemma_holds_middle("exited "@, n, tail);
    assert(tail =~= "; some paths were "@ + "unreadable"@ + ", the rest is shown"@);
    lemma_holds_middle("; some paths were "@, "unreadable"@, ", the rest is shown"@);
    lemma_holds_last("exited "@ + n, tail);
    lemma_holds_through("exited "@ + n + tail, tail, "unreadable"@);
    assert("skipped by --no-du"@ =~= "skipped by "@ + "--no-du"@);
    lemma_holds_last("skipped by "@, "--no-du"@);
}

} // verus!
