//! Rows of containers, services, disks, directories and facts about the host read back
//! as the columns they are made of.

use crate::float::{lemma_exact, lemma_leading_bit, Format, Single};
use crate::fmt::dec;
use crate::lines::{
    is_word, lemma_dec_digits, lemma_first_in_is, lemma_first_out_is, lemma_joined_front,
    lemma_lines_concat, lemma_one_line, lemma_single_line, lemma_trimmed_already,
    lemma_words_joined,
};
use crate::model::{
    ContainerView, DirUsageView, FilesystemView, HostInfoView, PortMappingView, ServiceView,
    SudoAvailability, UnitFileView,
};
use crate::number::digits_value;
use crate::parse::{
    bytes_text, container_row_of, df_has_type, df_header, df_of, df_row_of, df_rule, du_row_of,
    host_after, host_of, host_with, inodes_of, law_inodes_change_nothing_else, mapping_of,
    mapping_rule, mappings_of, megabytes, pct_of, service_row_of, tail_of, unit_file_row_of,
    with_inodes, without_prefixes,
};
use crate::readback::{are_words, lemma_joined_ends};
use crate::reading::{alike, mantissa_of, numeral_of, pow10, single_of, unsigned_part, Numeral};
use crate::sizes::{law_whole_sizes_read_back, lemma_size_word, power_of_1024};
use crate::sockets::{lemma_endpoint, lemma_found_at};
use crate::text::{
    cut_last, find_text, is_digit, is_space, joined, last_in, last_out, lemma_last_in,
    lemma_last_out, lines_of, lowercase, pieces, strip_back, strip_front, trimmed, words_of, Class,
};
use vstd::arithmetic::power2::{
    lemma2_to64, lemma2_to64_rest, lemma_pow2_adds, lemma_pow2_pos, lemma_pow2_strictly_increases,
    pow2,
};
use vstd::prelude::*;

verus! {

// ------------------------------------------------------------- services ----

/// A row of `list-units` is a service with these columns, with the bullet of a failed
/// unit before it or not; what is no service is left out.
pub proof fn law_services_read_back(
    unit: Seq<char>,
    load: Seq<char>,
    active: Seq<char>,
    sub: Seq<char>,
    description: Seq<Seq<char>>,
)
    requires
        is_word(unit),
        unit[0] != '*',
        unit[0] != '\u{25cf}',
        unit != "UNIT"@,
        is_word(load),
        is_word(active),
        is_word(sub),
        forall|i: int| 0 <= i < description.len() ==> is_word(#[trigger] description[i]),
    ensures
        ({
            let line = joined(seq![unit, load, active, sub] + description, " "@);
            let said = if ".service"@.is_suffix_of(unit) {
                Some(
                    ServiceView {
                        unit,
                        load,
                        active,
                        sub,
                        description: joined(description, " "@),
                    },
                )
            } else {
                None
            };
            &&& service_row_of(line) == said
            &&& service_row_of(seq!['\u{25cf}', ' '] + line) == said
            &&& service_row_of(seq!['*', ' '] + line) == said
        }),
{
    let ws = seq![unit, load, active, sub] + description;
    let line = joined(ws, " "@);
    assert forall|i: int| 0 <= i < ws.len() implies is_word(#[trigger] ws[i]) by {
        if i >= 4 {
            assert(ws[i] == description[i - 4]);
        }
    }
    lemma_words_joined(ws);
    lemma_joined_ends(ws);
    assert(ws.skip(4) =~= description);
    assert(tail_of(line, 4) == joined(description, " "@));
    let k = Class::Bullet;
    assert(line[0] == unit[0]);
    lemma_first_out_is(line, k, 0);
    assert(strip_front(line, k) =~= line);
    lemma_bullet(line, '\u{25cf}');
    lemma_bullet(line, '*');
}

proof fn lemma_bullet(line: Seq<char>, c: char)
    requires
        line.len() > 0,
        Class::Bullet.holds(c),
        trimmed(line) == line,
        !is_space(line[0]),
    ensures
        trimmed(strip_front(seq![c, ' '] + line, Class::Bullet)) == line,
{
    let s = seq![c, ' '] + line;
    lemma_first_out_is(s, Class::Bullet, 1);
    let t = seq![' '] + line;
    assert(strip_front(s, Class::Bullet) =~= t);
    assert(t[1] == line[0]);
    lemma_first_out_is(t, Class::Space, 1);
    assert(strip_front(t, Class::Space) =~= line);
    lemma_first_out_is(line, Class::Space, 0);
    assert(strip_front(line, Class::Space) =~= line);
}

/// A row of `list-unit-files` is a unit file with these columns, and a dash where there
/// is no preset.
pub proof fn law_unit_files_read_back(
    unit: Seq<char>,
    state: Seq<char>,
    preset: Seq<char>,
    more: Seq<Seq<char>>,
)
    requires
        is_word(unit),
        is_word(state),
        is_word(preset),
        forall|i: int| 0 <= i < more.len() ==> is_word(#[trigger] more[i]),
    ensures
        ".service"@.is_suffix_of(unit) ==> {
            &&& unit_file_row_of(joined(seq![unit, state, preset] + more, " "@)) == Some(
                UnitFileView { unit, state, preset },
            )
            &&& unit_file_row_of(joined(seq![unit, state], " "@)) == Some(
                UnitFileView { unit, state, preset: "-"@ },
            )
        },
        !".service"@.is_suffix_of(unit) ==> unit_file_row_of(
            joined(seq![unit, state, preset] + more, " "@),
        ) is None,
{
    let ws = seq![unit, state, preset] + more;
    assert forall|i: int| 0 <= i < ws.len() implies is_word(#[trigger] ws[i]) by {
        if i >= 3 {
            assert(ws[i] == more[i - 3]);
        }
    }
    lemma_words_joined(ws);
    lemma_words_joined(seq![unit, state]);
}

// ----------------------------------------------------------- containers ----

/// What a character joined, it separates again.
pub proof fn lemma_pieces_joined(parts: Seq<Seq<char>>, c: char)
    requires
        parts.len() > 0,
        forall|i: int| 0 <= i < parts.len() ==> !(#[trigger] parts[i]).contains(c),
    ensures
        pieces(joined(parts, seq![c]), c) == parts,
    decreases parts.len(),
{
    let k = Class::Only(c);
    let x = parts[0];
    let s = joined(parts, seq![c]);
    assert forall|j: int| 0 <= j < x.len() implies !k.holds(#[trigger] x[j]) by {
        assert(x.contains(x[j]));
    }
    if parts.len() == 1 {
        lemma_first_in_is(x, k, x.len() as int);
        assert(pieces(s, c) =~= parts);
    } else {
        let rest = parts.skip(1);
        assert(parts =~= seq![x] + rest);
        lemma_joined_front(x, rest, seq![c]);
        let t = joined(rest, seq![c]);
        assert(s =~= x + seq![c] + t);
        assert forall|j: int| 0 <= j < x.len() implies !k.holds(#[trigger] s[j]) by {
            assert(s[j] == x[j]);
        }
        assert(s[x.len() as int] == c);
        lemma_first_in_is(s, k, x.len() as int);
        assert(s.take(x.len() as int) =~= x);
        assert(s.skip(x.len() as int + 1) =~= t);
        assert forall|i: int| 0 <= i < rest.len() implies !(#[trigger] rest[i]).contains(c) by {
            assert(rest[i] == parts[i + 1]);
        }
        lemma_pieces_joined(rest, c);
        assert(pieces(s, c) =~= parts);
    }
}

/// A text that is trimmed already and has no tab in it.
pub open spec fn is_cell(s: Seq<char>) -> bool {
    trimmed(s) == s && !s.contains('\t')
}

/// A row of seven cells with tabs between them is a container with these: the second
/// cell is the image and the third the name.
pub proof fn law_containers_read_back(
    runtime: Seq<char>,
    id: Seq<char>,
    image: Seq<char>,
    name: Seq<char>,
    state: Seq<char>,
    status: Seq<char>,
    ports: Seq<char>,
    created: Seq<char>,
)
    requires
        is_word(id),
        is_cell(id) && is_cell(image) && is_cell(name) && is_cell(state) && is_cell(status) && is_cell(
            ports,
        ) && is_cell(created),
    ensures
        container_row_of(
            joined(seq![id, image, name, state, status, ports, created], seq!['\t']),
            runtime,
        ) == Some(
            ContainerView {
                runtime,
                id,
                name,
                image,
                state: lowercase(state),
                status,
                created,
                ports: mappings_of(ports),
                ports_raw: ports,
            },
        ),
{
    let f = seq![id, image, name, state, status, ports, created];
    let line = joined(f, seq!['\t']);
    lemma_pieces_joined(f, '\t');
    let rest = f.skip(1);
    assert(f =~= seq![id] + rest);
    lemma_joined_front(id, rest, seq!['\t']);
    assert(line[0] == id[0]);
    lemma_first_out_is(line, Class::Space, 0);
    assert(strip_front(line, Class::Space) =~= line);
    lemma_last_out(line, Class::Space);
    assert(!Class::Space.holds(line[0]));
    assert(trimmed(line).len() > 0);
}

/// A text of which a mapping is made: a word without the signs that separate the parts.
pub open spec fn is_part(s: Seq<char>) -> bool {
    is_word(s) && forall|i: int|
        0 <= i < s.len() ==> (#[trigger] s[i]) != ',' && s[i] != '/' && s[i] != '-' && s[i] != '>'
}

proof fn lemma_slash(port: Seq<char>, proto: Seq<char>)
    requires
        !proto.contains('/'),
    ensures
        cut_last(port + "/"@ + proto, '/') == Some((port, proto)),
{
    reveal_strlit("/");
    let s = port + "/"@ + proto;
    let k = Class::Only('/');
    let n = port.len() as int;
    lemma_last_in(s, k);
    let i = last_in(s, k);
    assert(s[n] == '/');
    assert(i == n) by {
        if i > n {
            assert(s[i] == proto[i - n - 1]);
        } else if i < n {
            assert(k.holds(s[n]));
        }
    }
    assert(s.take(n) =~= port);
    assert(s.skip(n + 1) =~= proto);
}

/// Whether a mapping can be written and read: its parts are words, the host port has no
/// colon, and there is a host address exactly where there is a host port.
pub open spec fn is_mapping(p: PortMappingView) -> bool {
    &&& is_part(p.container_port)
    &&& is_part(p.proto)
    &&& p.host_port.len() == 0 ==> p.host_ip.len() == 0
    &&& p.host_port.len() > 0 ==> is_part(p.host_ip) && is_part(p.host_port)
        && !p.host_port.contains(':')
}

proof fn lemma_part(s: Seq<char>)
    requires
        is_part(s),
    ensures
        !s.contains('/') && !s.contains(',') && !s.contains('-'),
        !is_space(s[0]),
        !is_space(s.last()),
        s.len() > 0,
{
    assert(s.last() == s[s.len() - 1]);
}

/// Two texts without a character have none together.
proof fn lemma_free(a: Seq<char>, b: Seq<char>, c: char)
    requires
        !a.contains(c),
        !b.contains(c),
    ensures
        !(a + b).contains(c),
{
    if (a + b).contains(c) {
        let i = (a + b).index_of(c);
        if i < a.len() {
            assert(a[i] == c);
        } else {
            assert(b[i - a.len()] == c);
        }
    }
}

/// A container port and its protocol.
#[verifier::spinoff_prover]
proof fn lemma_inner(port: Seq<char>, proto: Seq<char>)
    requires
        is_part(port),
        is_part(proto),
    ensures
        ({
            let s = port + "/"@ + proto;
            &&& cut_last(s, '/') == Some((port, proto))
            &&& trimmed(s) == s
            &&& s.len() > 0
            &&& !s.contains(',')
            &&& !s.contains('-')
            &&& !is_space(s[0])
            &&& !is_space(s.last())
        }),
{
    reveal_strlit("/");
    lemma_part(port);
    lemma_part(proto);
    lemma_slash(port, proto);
    let s = port + "/"@ + proto;
    assert(s[0] == port[0]);
    assert(s.last() == proto.last());
    lemma_trimmed_already(s);
    lemma_free(port, "/"@, ',');
    lemma_free(port + "/"@, proto, ',');
    lemma_free(port, "/"@, '-');
    lemma_free(port + "/"@, proto, '-');
}

/// A host address and a host port.
#[verifier::spinoff_prover]
proof fn lemma_host(ip: Seq<char>, port: Seq<char>)
    requires
        is_part(ip),
        is_part(port),
    ensures
        ({
            let s = ip + ":"@ + port;
            &&& trimmed(s) == s
            &&& s.len() > 0
            &&& !s.contains(',')
            &&& !s.contains('-')
            &&& !is_space(s[0])
        }),
{
    reveal_strlit(":");
    lemma_part(ip);
    lemma_part(port);
    let s = ip + ":"@ + port;
    assert(s[0] == ip[0]);
    assert(s.last() == port.last());
    lemma_trimmed_already(s);
    lemma_free(ip, ":"@, ',');
    lemma_free(ip + ":"@, port, ',');
    lemma_free(ip, ":"@, '-');
    lemma_free(ip + ":"@, port, '-');
}

#[verifier::spinoff_prover]
proof fn lemma_arrow(host: Seq<char>, inner: Seq<char>)
    requires
        host.len() > 0,
        inner.len() > 0,
        !host.contains('-'),
        !is_space(host[0]),
        !is_space(inner.last()),
    ensures
        ({
            let s = host + "->"@ + inner;
            &&& find_text(s, "->"@) == Some(host.len() as int)
            &&& s.take(host.len() as int) == host
            &&& s.skip((host.len() + 2) as int) == inner
            &&& trimmed(s) == s
            &&& s.len() > 0
        }),
{
    reveal_strlit("->");
    let s = host + "->"@ + inner;
    let n = host.len() as int;
    assert(s[0] == host[0]);
    assert(s.last() == inner.last());
    lemma_trimmed_already(s);
    assert forall|j: int| 0 <= j < n implies #[trigger] s[j] != '-' by {
        assert(s[j] == host[j]);
        assert(host.contains(host[j]));
    }
    assert(s.subrange(n, n + 2) =~= "->"@);
    lemma_found_at(s, "->"@, n);
    assert(s.take(n) =~= host);
    assert(s.skip(n + 2) =~= inner);
}

/// A port mapping that is written out reads back as it was.
#[verifier::spinoff_prover]
pub proof fn law_mappings_read_back(p: PortMappingView)
    requires
        is_mapping(p),
    ensures
        mapping_of(p.rendered()) == Some(p),
        !p.rendered().contains(','),
        p.rendered().len() > 0,
        trimmed(p.rendered()) == p.rendered(),
{
    let inner = p.container_port + "/"@ + p.proto;
    let s = p.rendered();
    lemma_inner(p.container_port, p.proto);
    if p.host_port.len() == 0 {
        assert forall|i: int| 0 <= i < s.len() implies #[trigger] s[i] != '-' by {
            assert(s.contains(s[i]));
        }
        lemma_no_arrow(s);
        assert(p.host_ip =~= seq![]);
        assert(p.host_port =~= seq![]);
    } else {
        let host = p.host_ip + ":"@ + p.host_port;
        lemma_endpoint(p.host_ip, p.host_port);
        lemma_host(p.host_ip, p.host_port);
        lemma_arrow(host, inner);
        assert(s =~= host + "->"@ + inner);
        reveal_strlit("->");
        lemma_free(host, "->"@, ',');
        lemma_free(host + "->"@, inner, ',');
    }
}

/// A list of port mappings that is written out with commas reads back as it was.
pub proof fn law_mapping_lists_read_back(ports: Seq<PortMappingView>)
    requires
        ports.len() > 0,
        forall|i: int| 0 <= i < ports.len() ==> is_mapping(#[trigger] ports[i]),
    ensures
        mappings_of(
            joined(ports.map_values(|p: PortMappingView| p.rendered()), seq![',']),
        ) == ports,
{
    let parts = ports.map_values(|p: PortMappingView| p.rendered());
    assert forall|i: int| 0 <= i < parts.len() implies !(#[trigger] parts[i]).contains(',') by {
        law_mappings_read_back(ports[i]);
    }
    lemma_pieces_joined(parts, ',');
    lemma_mapped(ports, parts);
}

proof fn lemma_mapped(ports: Seq<PortMappingView>, parts: Seq<Seq<char>>)
    requires
        parts.len() == ports.len(),
        forall|i: int| 0 <= i < ports.len() ==> is_mapping(#[trigger] ports[i]),
        forall|i: int| 0 <= i < ports.len() ==> #[trigger] parts[i] == ports[i].rendered(),
    ensures
        parts.filter_map(mapping_rule()) == ports,
    decreases parts.len(),
{
    if parts.len() > 0 {
        let a = parts.drop_last();
        let b = ports.drop_last();
        assert forall|i: int| 0 <= i < b.len() implies is_mapping(#[trigger] b[i]) by {
            assert(b[i] == ports[i]);
        }
        assert forall|i: int| 0 <= i < b.len() implies #[trigger] a[i] == b[i].rendered() by {
            assert(a[i] == parts[i]);
            assert(b[i] == ports[i]);
        }
        lemma_mapped(b, a);
        let n = ports.len() - 1;
        assert(parts.last() == parts[n]);
        law_mappings_read_back(ports[n]);
        assert(mapping_rule()(parts.last()) == Some(ports[n]));
        assert(b.push(ports[n]) =~= ports);
    } else {
        assert(parts.filter_map(mapping_rule()) =~= ports);
    }
}

proof fn lemma_no_arrow(s: Seq<char>)
    requires
        forall|i: int| 0 <= i < s.len() ==> #[trigger] s[i] != '-',
    ensures
        find_text(s, "->"@) is None,
    decreases s.len(),
{
    reveal_strlit("->");
    if "->"@.is_prefix_of(s) {
        assert(s[0] == "->"@[0]);
    }
    if s.len() > 0 {
        assert forall|i: int| 0 <= i < s.skip(1).len() implies #[trigger] s.skip(1)[i] != '-' by {
            assert(s.skip(1)[i] == s[i + 1]);
        }
        lemma_no_arrow(s.skip(1));
    }
}

// ---------------------------------------------------------------- disks ----

/// Two lines.
pub proof fn lemma_two_lines(a: Seq<char>, b: Seq<char>)
    requires
        a.len() > 0,
        b.len() > 0,
        forall|j: int| 0 <= j < a.len() ==> #[trigger] a[j] != '\n' && a[j] != '\r',
        forall|j: int| 0 <= j < b.len() ==> #[trigger] b[j] != '\n',
    ensures
        lines_of(a + "\n"@ + b) == seq![a, b],
{
    reveal_strlit("\n");
    lemma_one_line(a);
    lemma_single_line(b);
    assert(a + "\n"@ + b =~= a.push('\n') + b);
    lemma_lines_concat(a.push('\n'), b);
    assert(lines_of(a + "\n"@ + b) =~= seq![a, b]);
}

/// A row of `df` behind its header is a filesystem with these columns; the header says
/// whether there is one for the type.
pub proof fn law_filesystems_read_back(
    header: Seq<char>,
    source: Seq<char>,
    fstype: Seq<char>,
    size: Seq<char>,
    used: Seq<char>,
    avail: Seq<char>,
    pct: Seq<char>,
    mount: Seq<Seq<char>>,
)
    requires
        header.len() > 0,
        forall|j: int| 0 <= j < header.len() ==> #[trigger] header[j] != '\n' && header[j] != '\r',
        words_of(header).len() > 0,
        words_of(header)[0] == "Filesystem"@,
        is_word(source),
        source != "Filesystem"@,
        is_word(fstype),
        is_word(size),
        is_word(used),
        is_word(avail),
        is_word(pct),
        are_words(mount),
    ensures
        ({
            let said = FilesystemView {
                source,
                fstype,
                size,
                used,
                avail,
                use_pct: pct_of(pct),
                inode_pct: None,
                mount: joined(mount, " "@),
            };
            let typed = joined(seq![source, fstype, size, used, avail, pct] + mount, " "@);
            let plain = joined(seq![source, size, used, avail, pct] + mount, " "@);
            &&& words_of(header).contains("Type"@) ==> df_of(header + "\n"@ + typed) == seq![said]
            &&& !words_of(header).contains("Type"@) ==> df_of(header + "\n"@ + plain) == seq![
                FilesystemView { fstype: "-"@, ..said },
            ]
            &&& df_of(typed) == seq![said]
        }),
{
    let a = seq![source, fstype, size, used, avail, pct];
    let b = seq![source, size, used, avail, pct];
    lemma_df_row(header, a, mount);
    lemma_df_row(header, b, mount);
}

proof fn lemma_df_row(header: Seq<char>, columns: Seq<Seq<char>>, mount: Seq<Seq<char>>)
    requires
        header.len() > 0,
        forall|j: int| 0 <= j < header.len() ==> #[trigger] header[j] != '\n' && header[j] != '\r',
        words_of(header).len() > 0,
        words_of(header)[0] == "Filesystem"@,
        are_words(columns),
        columns.len() == 5 || columns.len() == 6,
        columns[0] != "Filesystem"@,
        are_words(mount),
    ensures
        ({
            let line = joined(columns + mount, " "@);
            let has_type = words_of(header).contains("Type"@);
            &&& words_of(line) == columns + mount
            &&& tail_of(line, columns.len() as int) == joined(mount, " "@)
            &&& joined(mount, " "@).len() > 0
            &&& df_row_of(line, has_type) is Some ==> df_of(header + "\n"@ + line) == seq![
                df_row_of(line, has_type)->0,
            ]
            &&& df_row_of(line, true) is Some ==> df_of(line) == seq![df_row_of(line, true)->0]
        }),
{
    let ws = columns + mount;
    let line = joined(ws, " "@);
    assert forall|i: int| 0 <= i < ws.len() implies is_word(#[trigger] ws[i]) by {
        if i < columns.len() {
            assert(ws[i] == columns[i]);
        } else {
            assert(ws[i] == mount[i - columns.len()]);
        }
    }
    lemma_words_joined(ws);
    lemma_joined_ends(mount);
    assert(ws.skip(columns.len() as int) =~= mount);
    assert(ws[0] == columns[0]);
    lemma_two_lines(header, line);
    lemma_single_line(line);
    let two = seq![header, line];
    assert(two[0] == header);
    let has_type = df_has_type(two);
    assert(has_type == words_of(header).contains("Type"@));
    let f = df_rule(has_type);
    assert(f(header) is None);
    assert(two.drop_last() =~= seq![header]);
    assert(two.last() == line);
    let h = seq![header];
    assert(h.drop_last() =~= seq![]);
    assert(h.last() == header);
    assert(h.drop_last().filter_map(f) =~= seq![]);
    assert(h.filter_map(f) =~= seq![]);
    if f(line) is Some {
        assert(two.filter_map(f) =~= seq![f(line)->0]);
    }
    let one = seq![line];
    assert(one[0] == line);
    assert(one.skip(1) =~= seq![]);
    assert(df_header(one.skip(1)) is None);
    assert(df_header(one) is None);
    let g = df_rule(true);
    assert(one.drop_last() =~= seq![]);
    assert(one.last() == line);
    assert(one.drop_last().filter_map(g) =~= seq![]);
    if g(line) is Some {
        assert(one.filter_map(g) =~= seq![g(line)->0]);
    }
}

/// A row of `df -iP` sets the inode usage of the filesystem that is mounted where it
/// says, the first where several are, and of no other.
pub proof fn law_inodes_go_to_their_mount(
    fs: Seq<FilesystemView>,
    lines: Seq<Seq<char>>,
    columns: Seq<Seq<char>>,
    mount: Seq<Seq<char>>,
    i: int,
)
    requires
        columns.len() == 5,
        are_words(columns),
        columns[0] != "Filesystem"@,
        are_words(mount),
        0 <= i < fs.len(),
    ensures
        ({
            let before = inodes_of(fs, lines);
            let after = inodes_of(fs, lines.push(joined(columns + mount, " "@)));
            let first = fs[i].mount == joined(mount, " "@) && forall|j: int|
                0 <= j < i ==> #[trigger] fs[j].mount != joined(mount, " "@);
            &&& after.len() == fs.len()
            &&& first ==> after[i] == (FilesystemView { inode_pct: pct_of(columns[4]), ..fs[i] })
            &&& !first ==> after[i] == before[i]
        }),
{
    let ws = columns + mount;
    let line = joined(ws, " "@);
    assert forall|j: int| 0 <= j < ws.len() implies is_word(#[trigger] ws[j]) by {
        if j < 5 {
            assert(ws[j] == columns[j]);
        } else {
            assert(ws[j] == mount[j - 5]);
        }
    }
    lemma_words_joined(ws);
    assert(ws.skip(5) =~= mount);
    assert(ws[0] == columns[0]);
    assert(ws[4] == columns[4]);
    assert(lines.push(line).drop_last() =~= lines);
    law_inodes_change_nothing_else(fs, lines);
    let before = inodes_of(fs, lines);
    assert(before[i] == (FilesystemView { inode_pct: before[i].inode_pct, ..fs[i] }));
    assert forall|j: int| 0 <= j < fs.len() implies #[trigger] before[j].mount == fs[j].mount by {
        assert(before[j] == (FilesystemView { inode_pct: before[j].inode_pct, ..fs[j] }));
    }
    lemma_set_at(before, joined(mount, " "@), pct_of(columns[4]), i);
    if exists|j: int| 0 <= j < i && #[trigger] fs[j].mount == joined(mount, " "@) {
        let j = choose|j: int| 0 <= j < i && #[trigger] fs[j].mount == joined(mount, " "@);
        assert(before[j].mount == joined(mount, " "@));
    } else {
        assert forall|j: int| 0 <= j < i implies #[trigger] before[j].mount != joined(mount, " "@) by {
            assert(fs[j].mount != joined(mount, " "@));
        }
    }
}

proof fn lemma_set_at(fs: Seq<FilesystemView>, mount: Seq<char>, pct: Option<Single>, i: int)
    requires
        0 <= i < fs.len(),
    ensures
        with_inodes(fs, mount, pct).len() == fs.len(),
        fs[i].mount == mount && (forall|j: int| 0 <= j < i ==> #[trigger] fs[j].mount != mount)
            ==> with_inodes(fs, mount, pct)[i] == (FilesystemView { inode_pct: pct, ..fs[i] }),
        fs[i].mount != mount || (exists|j: int| 0 <= j < i && #[trigger] fs[j].mount == mount)
            ==> with_inodes(fs, mount, pct)[i] == fs[i],
    decreases fs.len(),
{
    let r = with_inodes(fs, mount, pct);
    if fs[0].mount == mount {
    } else {
        let rest = fs.skip(1);
        if i > 0 {
            lemma_set_at(rest, mount, pct, i - 1);
            assert(rest[i - 1] == fs[i]);
            assert(r[i] == with_inodes(rest, mount, pct)[i - 1]);
            if forall|j: int| 0 <= j < i ==> #[trigger] fs[j].mount != mount {
                assert forall|j: int| 0 <= j < i - 1 implies #[trigger] rest[j].mount != mount by {
                    assert(rest[j] == fs[j + 1]);
                }
            }
            if exists|j: int| 0 <= j < i && #[trigger] fs[j].mount == mount {
                let j = choose|j: int| 0 <= j < i && #[trigger] fs[j].mount == mount;
                assert(rest[j - 1].mount == mount);
            }
        } else if rest.len() > 0 {
            lemma_set_at(rest, mount, pct, 0);
        } else {
            assert(with_inodes(rest, mount, pct) =~= rest);
        }
    }
}

// ----------------------------------------------------------- percentages ----

/// Integers below two to the power of 24 are numbers in single precision.
proof fn lemma_whole_single(n: nat) -> (b: nat)
    requires
        n < pow2(24),
    ensures
        b < Format::Single.infinity(),
        Format::Single.scaled(b) == n * pow2(149),
{
    let f = Format::Single;
    let p = pow2(23);
    lemma2_to64();
    lemma2_to64_rest();
    if n == 0 {
        assert(f.scaled(0) == 0) by (nonlinear_arith)
            requires
                f.scaled(0) == 0 * pow2(f.exponent(0)),
        ;
        assert(n * pow2(149) == 0) by (nonlinear_arith)
            requires
                n == 0,
        ;
        0
    } else {
        let t = lemma_leading_bit(n);
        if t > 24 {
            lemma_pow2_strictly_increases(24, t);
        }
        let m = pow2((23 - t) as nat);
        lemma_pow2_pos((23 - t) as nat);
        lemma_pow2_adds(t, (23 - t) as nat);
        lemma_pow2_adds(t + 1, (23 - t) as nat);
        lemma_pow2_adds(23, 1);
        let sig = n * m;
        assert(p <= sig < 2 * p) by (nonlinear_arith)
            requires
                pow2(t) <= n < pow2(t + 1),
                m > 0,
                pow2(t) * m == p,
                pow2(t + 1) * m == 2 * p,
                sig == n * m,
        ;
        let x = (126 + t) as nat;
        let r = (sig - p) as nat;
        let b = (x + 1) * p + r;
        vstd::arithmetic::div_mod::lemma_fundamental_div_mod_converse(
            b as int,
            p as int,
            (x + 1) as int,
            r as int,
        );
        assert(f.significand(b) == sig);
        assert(f.exponent(b) == x);
        lemma_pow2_adds((23 - t) as nat, x);
        assert(sig * pow2(x) == n * (m * pow2(x))) by (nonlinear_arith)
            requires
                sig == n * m,
        ;
        assert(b < 255 * p) by (nonlinear_arith)
            requires
                b == (x + 1) * p + r,
                r < p,
                x + 2 <= 255,
        ;
        b
    }
}

/// A percentage is read as the number it is: it is at least what that number is at
/// least, and is shown as it was written.
pub proof fn law_percentages_read_back(n: nat, m: nat)
    requires
        n < pow2(24),
    ensures
        pct_of(dec(n) + "%"@) matches Some(x) && x.shown() == dec(n) && (x.at_least(m) <==> n >= m),
        pct_of("-"@) is None,
{
    reveal_strlit("%");
    reveal_strlit("-");
    let d = dec(n);
    let s = d + "%"@;
    let f = Format::Single;
    lemma_dec_digits(n);
    assert(s[0] == d[0]);
    lemma_trimmed_already(s);
    let k = Class::Only('%');
    lemma_last_out(s, k);
    assert(k.holds(s[d.len() as int]));
    assert(!k.holds(s[d.len() - 1])) by {
        assert(s[d.len() - 1] == d[d.len() - 1]);
    }
    assert(strip_back(s, k) =~= d);
    let b = lemma_whole_single(n);
    assert(f.scaled(b) * 1 == n * pow2(149)) by (nonlinear_arith)
        requires
            f.scaled(b) == n * pow2(149),
    ;
    lemma_exact(f, b, n, 1);
    lemma_single_read(d, n);
    lemma2_to64();
    lemma2_to64_rest();
    assert(f.infinity() < 0x8000_0000);
    let u = pow2(149);
    lemma_pow2_pos(149);
    assert(n * u >= m * u <==> n >= m) by (nonlinear_arith)
        requires
            u > 0,
    ;
    assert(n * u * 1 == u * n + 0) by (nonlinear_arith);
    vstd::arithmetic::div_mod::lemma_fundamental_div_mod_converse(
        (n * u * 1) as int,
        u as int,
        n as int,
        0,
    );
    let dash = "-"@;
    lemma_trimmed_already(dash);
    lemma_last_out(dash, k);
    assert(!k.holds(dash[0]));
    assert(strip_back(dash, k) =~= dash);
    lemma_no_number(dash);
}

proof fn lemma_no_number(s: Seq<char>)
    requires
        s.len() == 1,
        s[0] == '-',
    ensures
        single_of(s) is None,
{
    reveal_strlit("nan");
    reveal_strlit("inf");
    reveal_strlit("infinity");
    let t = unsigned_part(s);
    assert(t =~= seq![]);
    lemma_first_in_is(t, Class::Exponent, 0);
    assert(t.take(0) =~= t);
    lemma_first_in_is(t, Class::Only('.'), 0);
    assert(mantissa_of(t) is None);
}

proof fn lemma_single_read(ds: Seq<char>, n: nat)
    requires
        ds.len() > 0,
        forall|i: int| 0 <= i < ds.len() ==> is_digit(#[trigger] ds[i]),
        digits_value(ds) == n,
    ensures
        single_of(ds) == Some(Single { bits: Format::Single.nearest(n, 1) as u32 }),
{
    reveal_strlit("nan");
    reveal_strlit("inf");
    reveal_strlit("infinity");
    assert(is_digit(ds[0]));
    assert(unsigned_part(ds) == ds);
    assert(!alike(ds, "nan"@) && !alike(ds, "inf"@) && !alike(ds, "infinity"@));
    assert forall|i: int| 0 <= i < ds.len() implies !Class::Exponent.holds(#[trigger] ds[i])
        && !Class::Only('.').holds(ds[i]) by {
        assert(is_digit(ds[i]));
    }
    lemma_first_in_is(ds, Class::Exponent, ds.len() as int);
    assert(ds.take(ds.len() as int) =~= ds);
    lemma_first_in_is(ds, Class::Only('.'), ds.len() as int);
    assert(ds + Seq::<char>::empty() =~= ds);
    assert(mantissa_of(ds) == Some((ds, 0int)));
    assert(pow10(0) == 1);
    assert(n * pow10(0) == n) by (nonlinear_arith)
        requires
            pow10(0) == 1,
    ;
    assert(numeral_of(ds) == Some(Numeral::Decimal { digits: n, exp: 0 }));
}

// ----------------------------------------------------------- directories ----

/// A line of `du` is a directory with its size, as it is written and in bytes.
pub proof fn law_directories_read_back(k: nat, unit: nat, path: Seq<char>)
    requires
        k < 1024,
        unit <= 5,
        unit > 0 ==> k >= 1,
        path.len() > 0,
        trimmed(path) == path,
        !path.contains('*'),
    ensures
        ({
            let bytes = k * power_of_1024(unit);
            let size = bytes_text(bytes);
            du_row_of(size + "\t"@ + path) == Some(
                DirUsageView { path, human: size, bytes: bytes as u64 },
            )
        }),
{
    reveal_strlit("\t");
    let bytes = k * power_of_1024(unit);
    let size = bytes_text(bytes);
    law_whole_sizes_read_back(k, unit);
    lemma_size_word(k, unit);
    let line = size + "\t"@ + path;
    let t = Class::Only('\t');
    assert forall|j: int| 0 <= j < size.len() implies !t.holds(#[trigger] line[j]) by {
        assert(line[j] == size[j]);
    }
    assert(line[size.len() as int] == '\t');
    lemma_first_in_is(line, t, size.len() as int);
    assert(line.take(size.len() as int) =~= size);
    assert(line.skip(size.len() as int + 1) =~= path);
    assert(size.last() == size[size.len() - 1]);
    lemma_trimmed_already(size);
}

// ----------------------------------------------------------------- facts ----

/// Each fact about the host is kept under its name, the last one where there are
/// several, and changes no other.
pub proof fn law_facts_are_kept(lines: Seq<Seq<char>>, value: Seq<char>)
    requires
        trimmed(value) == value,
    ensures
        ({
            let h = host_of(lines);
            &&& host_of(lines.push("HOSTNAME="@ + value)) == (HostInfoView { hostname: value, ..h })
            &&& host_of(lines.push("OS="@ + value)) == (HostInfoView { os: value, ..h })
            &&& host_of(lines.push("KERNEL="@ + value)) == (HostInfoView { kernel: value, ..h })
            &&& host_of(lines.push("ARCH="@ + value)) == (HostInfoView { arch: value, ..h })
            &&& host_of(lines.push("CPUS="@ + value)) == (HostInfoView { cpus: value, ..h })
            &&& host_of(lines.push("LOAD="@ + value)) == (HostInfoView { load: value, ..h })
            &&& host_of(lines.push("USER="@ + value)) == (HostInfoView { user: value, ..h })
            &&& host_of(lines.push("VIRT="@ + value)) == (HostInfoView { virt: value, ..h })
        }),
{
    assert(forall|l: Seq<char>| #[trigger] lines.push(l).drop_last() =~= lines);
    lemma_names();
    lemma_names_differ();
    lemma_fact("HOSTNAME"@, "HOSTNAME="@, value);
    lemma_fact("OS"@, "OS="@, value);
    lemma_fact("KERNEL"@, "KERNEL="@, value);
    lemma_fact("ARCH"@, "ARCH="@, value);
    lemma_fact("CPUS"@, "CPUS="@, value);
    lemma_fact("LOAD"@, "LOAD="@, value);
    lemma_fact("USER"@, "USER="@, value);
    lemma_fact("VIRT"@, "VIRT="@, value);
}

/// A name and its value are told apart.
proof fn lemma_fact(name: Seq<char>, mark: Seq<char>, value: Seq<char>)
    requires
        is_word(name),
        mark == name.push('='),
        !name.contains('='),
        trimmed(value) == value,
    ensures
        forall|h: HostInfoView| #[trigger]
            host_after(h, mark + value) == host_with(h, name, value),
{
    let line = mark + value;
    let n = name.len() as int;
    let k = Class::Only('=');
    assert forall|j: int| 0 <= j < n implies !k.holds(#[trigger] line[j]) by {
        assert(line[j] == name[j]);
        assert(name.contains(name[j]));
    }
    assert(line[n] == '=');
    lemma_first_in_is(line, k, n);
    assert(line.take(n) =~= name);
    assert(line.skip(n + 1) =~= value);
    assert(name.last() == name[n - 1]);
    lemma_trimmed_already(name);
}

proof fn lemma_names()
    ensures
        is_word("HOSTNAME"@) && !"HOSTNAME"@.contains('=') && "HOSTNAME="@ == "HOSTNAME"@.push('='),
        is_word("OS"@) && !"OS"@.contains('=') && "OS="@ == "OS"@.push('='),
        is_word("KERNEL"@) && !"KERNEL"@.contains('=') && "KERNEL="@ == "KERNEL"@.push('='),
        is_word("ARCH"@) && !"ARCH"@.contains('=') && "ARCH="@ == "ARCH"@.push('='),
        is_word("UPTIME"@) && !"UPTIME"@.contains('=') && "UPTIME="@ == "UPTIME"@.push('='),
        is_word("CPUS"@) && !"CPUS"@.contains('=') && "CPUS="@ == "CPUS"@.push('='),
        is_word("LOAD"@) && !"LOAD"@.contains('=') && "LOAD="@ == "LOAD"@.push('='),
        is_word("MEMTOTAL"@) && !"MEMTOTAL"@.contains('=') && "MEMTOTAL="@ == "MEMTOTAL"@.push('='),
        is_word("MEMUSED"@) && !"MEMUSED"@.contains('=') && "MEMUSED="@ == "MEMUSED"@.push('='),
        is_word("USER"@) && !"USER"@.contains('=') && "USER="@ == "USER"@.push('='),
        is_word("VIRT"@) && !"VIRT"@.contains('=') && "VIRT="@ == "VIRT"@.push('='),
        is_word("SUDO"@) && !"SUDO"@.contains('=') && "SUDO="@ == "SUDO"@.push('='),
{
    reveal_strlit("HOSTNAME");
    reveal_strlit("OS");
    reveal_strlit("KERNEL");
    reveal_strlit("ARCH");
    reveal_strlit("UPTIME");
    reveal_strlit("CPUS");
    reveal_strlit("LOAD");
    reveal_strlit("MEMTOTAL");
    reveal_strlit("MEMUSED");
    reveal_strlit("USER");
    reveal_strlit("VIRT");
    reveal_strlit("SUDO");
    reveal_strlit("HOSTNAME=");
    reveal_strlit("OS=");
    reveal_strlit("KERNEL=");
    reveal_strlit("ARCH=");
    reveal_strlit("UPTIME=");
    reveal_strlit("CPUS=");
    reveal_strlit("LOAD=");
    reveal_strlit("MEMTOTAL=");
    reveal_strlit("MEMUSED=");
    reveal_strlit("USER=");
    reveal_strlit("VIRT=");
    reveal_strlit("SUDO=");
}

/// The names differ.
proof fn lemma_names_differ()
    ensures
        "HOSTNAME"@.len() == 8 && "HOSTNAME"@[0] == 'H',
        "OS"@.len() == 2,
        "KERNEL"@.len() == 6 && "KERNEL"@[0] == 'K',
        "ARCH"@.len() == 4 && "ARCH"@[0] == 'A',
        "UPTIME"@.len() == 6 && "UPTIME"@[0] == 'U',
        "CPUS"@.len() == 4 && "CPUS"@[0] == 'C',
        "LOAD"@.len() == 4 && "LOAD"@[0] == 'L',
        "MEMTOTAL"@.len() == 8 && "MEMTOTAL"@[0] == 'M',
        "MEMUSED"@.len() == 7,
        "USER"@.len() == 4 && "USER"@[0] == 'U',
        "VIRT"@.len() == 4 && "VIRT"@[0] == 'V',
        "SUDO"@.len() == 4 && "SUDO"@[0] == 'S',
{
    reveal_strlit("HOSTNAME");
    reveal_strlit("OS");
    reveal_strlit("KERNEL");
    reveal_strlit("ARCH");
    reveal_strlit("UPTIME");
    reveal_strlit("CPUS");
    reveal_strlit("LOAD");
    reveal_strlit("MEMTOTAL");
    reveal_strlit("MEMUSED");
    reveal_strlit("USER");
    reveal_strlit("VIRT");
    reveal_strlit("SUDO");
}

/// Memory is read as a number of megabytes, and how privileged probes are run from the
/// four words for it.
pub proof fn law_numbers_and_privilege_are_read(lines: Seq<Seq<char>>, n: u64)
    ensures
        ({
            let h = host_of(lines);
            &&& host_of(lines.push("MEMTOTAL="@ + dec(n as nat))) == (HostInfoView {
                mem_total_mb: Some(n),
                ..h
            })
            &&& host_of(lines.push("MEMUSED="@ + dec(n as nat))) == (HostInfoView {
                mem_used_mb: Some(n),
                ..h
            })
            &&& host_of(lines.push("SUDO="@ + "root"@)) == (HostInfoView {
                sudo: SudoAvailability::Root,
                ..h
            })
            &&& host_of(lines.push("SUDO="@ + "passwordless"@)) == (HostInfoView {
                sudo: SudoAvailability::Passwordless,
                ..h
            })
            &&& host_of(lines.push("SUDO="@ + "needs-password"@)) == (HostInfoView {
                sudo: SudoAvailability::NeedsPassword,
                ..h
            })
            &&& host_of(lines.push("SUDO="@ + "not-requested"@)) == (HostInfoView {
                sudo: SudoAvailability::NotRequested,
                ..h
            })
        }),
{
    assert(forall|l: Seq<char>| #[trigger] lines.push(l).drop_last() =~= lines);
    lemma_names();
    lemma_names_differ();
    let d = dec(n as nat);
    lemma_dec_digits(n as nat);
    assert(d.last() == d[d.len() - 1]);
    lemma_trimmed_already(d);
    assert(megabytes(d) == Some(n)) by {
        assert(is_digit(d[0]));
    }
    lemma_fact("MEMTOTAL"@, "MEMTOTAL="@, d);
    lemma_fact("MEMUSED"@, "MEMUSED="@, d);
    reveal_strlit("root");
    reveal_strlit("passwordless");
    reveal_strlit("needs-password");
    reveal_strlit("not-requested");
    lemma_trimmed_already("root"@);
    lemma_trimmed_already("passwordless"@);
    lemma_trimmed_already("needs-password"@);
    lemma_trimmed_already("not-requested"@);
    lemma_fact("SUDO"@, "SUDO="@, "root"@);
    lemma_fact("SUDO"@, "SUDO="@, "passwordless"@);
    lemma_fact("SUDO"@, "SUDO="@, "needs-password"@);
    lemma_fact("SUDO"@, "SUDO="@, "not-requested"@);
}

/// The time that a machine is up is kept without the word that leads it.
pub proof fn law_uptime_is_kept(lines: Seq<Seq<char>>, value: Seq<char>)
    requires
        value.len() > 0,
        trimmed(value) == value,
        value[0] != 'u',
        !is_space(value[0]),
    ensures
        host_of(lines.push("UPTIME="@ + ("up "@ + value))) == (HostInfoView {
            uptime: value,
            ..host_of(lines)
        }),
        host_of(lines.push("UPTIME="@ + value)) == (HostInfoView { uptime: value, ..host_of(lines) }),
{
    reveal_strlit("up ");
    assert(forall|l: Seq<char>| #[trigger] lines.push(l).drop_last() =~= lines);
    lemma_names();
    lemma_names_differ();
    let p = "up "@;
    let with = p + value;
    lemma_up_trimmed(value);
    lemma_fact("UPTIME"@, "UPTIME="@, with);
    lemma_fact("UPTIME"@, "UPTIME="@, value);
    assert(p[0] == 'u');
    assert(!p.is_prefix_of(value)) by {
        if p.is_prefix_of(value) {
            assert(value[0] == p[0]);
        }
    }
    assert(p.is_prefix_of(with)) by {
        assert(with.take(3) =~= p);
    }
    assert(with.skip(3) =~= value);
    assert(without_prefixes(value, p) == value);
    assert(without_prefixes(with, p) == value);
}

proof fn lemma_up_trimmed(value: Seq<char>)
    requires
        value.len() > 0,
        trimmed(value) == value,
        !is_space(value[0]),
    ensures
        trimmed("up "@ + value) == "up "@ + value,
{
    reveal_strlit("up ");
    let s = "up "@ + value;
    lemma_first_out_is(value, Class::Space, 0);
    assert(strip_front(value, Class::Space) =~= value);
    lemma_last_out(value, Class::Space);
    assert(value.len() == last_out(value, Class::Space) + 1);
    assert(s.last() == value[value.len() - 1]);
    assert(s[0] == 'u');
    lemma_trimmed_already(s);
}

/// A line of `du` with white space in place of the tab is the same directory.
pub proof fn law_spaced_directories_read_back(k: nat, unit: nat, path: Seq<Seq<char>>)
    requires
        k < 1024,
        unit <= 5,
        unit > 0 ==> k >= 1,
        are_words(path),
    ensures
        ({
            let bytes = k * power_of_1024(unit);
            let size = bytes_text(bytes);
            du_row_of(joined(seq![size] + path, " "@)) == Some(
                DirUsageView { path: joined(path, " "@), human: size, bytes: bytes as u64 },
            )
        }),
{
    let bytes = k * power_of_1024(unit);
    let size = bytes_text(bytes);
    law_whole_sizes_read_back(k, unit);
    lemma_size_word(k, unit);
    let ws = seq![size] + path;
    let line = joined(ws, " "@);
    assert forall|i: int| 0 <= i < ws.len() implies is_word(#[trigger] ws[i]) by {
        if i > 0 {
            assert(ws[i] == path[i - 1]);
        }
    }
    lemma_words_joined(ws);
    lemma_no_tabs(ws);
    lemma_joined_ends(path);
    assert forall|j: int| 0 <= j < line.len() implies !Class::Only('\t').holds(#[trigger] line[j]) by {}
    lemma_first_in_is(line, Class::Only('\t'), line.len() as int);
    assert(ws.skip(1) =~= path);
    assert(tail_of(line, 1) == joined(path, " "@));
}

/// Words that are joined by spaces have no tab between them.
proof fn lemma_no_tabs(ws: Seq<Seq<char>>)
    requires
        forall|i: int| 0 <= i < ws.len() ==> is_word(#[trigger] ws[i]),
    ensures
        forall|j: int| 0 <= j < joined(ws, " "@).len() ==> #[trigger] joined(ws, " "@)[j] != '\t',
    decreases ws.len(),
{
    reveal_strlit(" ");
    let s = joined(ws, " "@);
    if ws.len() == 1 {
        assert(is_word(ws[0]));
    } else if ws.len() > 1 {
        let rest = ws.drop_last();
        assert forall|i: int| 0 <= i < rest.len() implies is_word(#[trigger] rest[i]) by {
            assert(rest[i] == ws[i]);
        }
        lemma_no_tabs(rest);
        let before = joined(rest, " "@);
        let last = ws.last();
        assert(last == ws[ws.len() - 1]);
        assert forall|j: int| 0 <= j < s.len() implies #[trigger] s[j] != '\t' by {
            if j < before.len() {
                assert(s[j] == before[j]);
            } else if j > before.len() {
                assert(s[j] == last[j - before.len() - 1]);
            }
        }
    }
}

} // verus!
