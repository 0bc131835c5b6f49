//! The persistent tracking registry: one line per container record,
//! fields separated by `|`, the argv sub-separated by tabs, volumes and
//! environment entries by commas. This module holds the record type, its
//! mathematical model, and the codec between records and registry text.

use vstd::prelude::*;

use crate::text::{
    bool_dec, bool_to_string, int_dec, join_strings, join_with, lemma_bool_dec_no_char,
    lemma_bool_roundtrip, lemma_concat_no_char, lemma_digits_no_char, lemma_i32_roundtrip,
    lemma_int_dec_no_char, lemma_join_no_char, lemma_split_concat, lemma_split_join,
    lemma_u64_dec_digits, lemma_u64_roundtrip, parse_bool_spec, parse_bool_str, parse_i32_spec,
    parse_i32_str, parse_u64_spec, parse_u64_str, push_char, split_on, split_str, u64_dec,
    u64_to_string, i32_to_string,
};

verus! {

// ---------------------------------------------------------------------------
// The record and its model
// ---------------------------------------------------------------------------

/// One bind mount: a host path mounted at a path inside the container.
pub struct VolumeMount {
    pub host: String,
    pub guest: String,
}

/// Mathematical model of a bind mount.
#[verifier::ext_equal]
pub ghost struct VolumeModel {
    pub host: Seq<char>,
    pub guest: Seq<char>,
}

impl View for VolumeMount {
    type V = VolumeModel;

    open spec fn view(&self) -> VolumeModel {
        VolumeModel { host: self.host@, guest: self.guest@ }
    }
}

impl DeepView for VolumeMount {
    type V = VolumeModel;

    open spec fn deep_view(&self) -> VolumeModel {
        self.view()
    }
}

/// One persistent container record.
///
/// `pid` uses sentinels: positive is a live kernel PID, `-1` means
/// scheduled to start, `-2` means stopped by the user (never restarted),
/// anything else means exited.
pub struct ContainerEntry {
    pub name: String,
    pub pid: i32,
    pub dir: String,
    pub command: Vec<String>,
    pub image: String,
    pub ports: String,
    pub isolated: bool,
    pub volumes: Vec<VolumeMount>,
    pub env_vars: Vec<String>,
    pub timestamp: u64,
}

/// Mathematical model of a record.
#[verifier::ext_equal]
pub ghost struct EntryModel {
    pub name: Seq<char>,
    pub pid: int,
    pub dir: Seq<char>,
    pub command: Seq<Seq<char>>,
    pub image: Seq<char>,
    pub ports: Seq<char>,
    pub isolated: bool,
    pub volumes: Seq<VolumeModel>,
    pub env_vars: Seq<Seq<char>>,
    pub timestamp: int,
}

impl View for ContainerEntry {
    type V = EntryModel;

    open spec fn view(&self) -> EntryModel {
        EntryModel {
            name: self.name@,
            pid: self.pid as int,
            dir: self.dir@,
            command: self.command.deep_view(),
            image: self.image@,
            ports: self.ports@,
            isolated: self.isolated,
            volumes: self.volumes.deep_view(),
            env_vars: self.env_vars.deep_view(),
            timestamp: self.timestamp as int,
        }
    }
}

impl DeepView for ContainerEntry {
    type V = EntryModel;

    open spec fn deep_view(&self) -> EntryModel {
        self.view()
    }
}

impl ContainerEntry {
    /// A field-wise copy of the record.
    pub fn duplicate(&self) -> (r: ContainerEntry)
        ensures
            r@ == self@,
    {
        let r = ContainerEntry {
            name: self.name.clone(),
            pid: self.pid,
            dir: self.dir.clone(),
            command: clone_string_vec(&self.command),
            image: self.image.clone(),
            ports: self.ports.clone(),
            isolated: self.isolated,
            volumes: clone_volumes(&self.volumes),
            env_vars: clone_string_vec(&self.env_vars),
            timestamp: self.timestamp,
        };
        proof {
            assert(r@ =~~= self@);
        }
        r
    }
}

pub fn clone_string_vec(v: &Vec<String>) -> (r: Vec<String>)
    ensures
        r.deep_view() == v.deep_view(),
{
    let mut r: Vec<String> = Vec::new();
    let mut i: usize = 0;
    while i < v.len()
        invariant
            0 <= i <= v.len(),
            r@.len() == i,
            forall|j: int| 0 <= j < i ==> (#[trigger] r@[j])@ == v@[j]@,
        decreases v.len() - i,
    {
        r.push(v[i].clone());
        i += 1;
    }
    proof {
        assert forall|j: int| 0 <= j < v@.len() implies r.deep_view()[j] == v.deep_view()[j] by {
            assert(r@[j]@ == v@[j]@);
        }
        assert(r.deep_view() =~= v.deep_view());
    }
    r
}

pub fn clone_volumes(v: &Vec<VolumeMount>) -> (r: Vec<VolumeMount>)
    ensures
        r.deep_view() == v.deep_view(),
{
    let mut r: Vec<VolumeMount> = Vec::new();
    let mut i: usize = 0;
    while i < v.len()
        invariant
            0 <= i <= v.len(),
            r@.len() == i,
            forall|j: int| 0 <= j < i ==> (#[trigger] r@[j])@ == v@[j]@,
        decreases v.len() - i,
    {
        r.push(VolumeMount { host: v[i].host.clone(), guest: v[i].guest.clone() });
        proof {
            assert(r@[i as int]@ =~~= v@[i as int]@);
        }
        i += 1;
    }
    proof {
        assert forall|j: int| 0 <= j < v@.len() implies r.deep_view()[j] == v.deep_view()[j] by {
            assert(r@[j]@ == v@[j]@);
        }
        assert(r.deep_view() =~= v.deep_view());
    }
    r
}

// ---------------------------------------------------------------------------
// Well-formedness: what a record must satisfy for its line to read back
// ---------------------------------------------------------------------------

/// A plain field may not contain the record separator or a newline.
pub open spec fn field_ok(s: Seq<char>) -> bool {
    !s.contains('|') && !s.contains('\n')
}

/// An argv or environment item: non-empty, free of its list separator.
pub open spec fn list_item_ok(s: Seq<char>, sep: char) -> bool {
    field_ok(s) && !s.contains(sep) && s.len() > 0
}

/// A volume path: free of the pair and list separators.
pub open spec fn volume_part_ok(s: Seq<char>) -> bool {
    field_ok(s) && !s.contains(',') && !s.contains(':')
}

/// The record can be written as one registry line and read back intact.
pub open spec fn entry_wf(e: EntryModel) -> bool {
    &&& i32::MIN <= e.pid <= i32::MAX
    &&& 0 <= e.timestamp <= u64::MAX
    &&& field_ok(e.name)
    &&& field_ok(e.dir)
    &&& field_ok(e.image)
    &&& field_ok(e.ports)
    &&& forall|i: int| 0 <= i < e.command.len() ==> list_item_ok(#[trigger] e.command[i], '\t')
    &&& forall|i: int|
        0 <= i < e.volumes.len() ==> volume_part_ok((#[trigger] e.volumes[i]).host)
            && volume_part_ok(e.volumes[i].guest)
    &&& forall|i: int| 0 <= i < e.env_vars.len() ==> list_item_ok(#[trigger] e.env_vars[i], ',')
}

// ---------------------------------------------------------------------------
// Serialization
// ---------------------------------------------------------------------------

/// How one bind mount is written: `host:guest`.
pub open spec fn ser_volume(v: VolumeModel) -> Seq<char> {
    v.host + seq![':'] + v.guest
}

pub open spec fn volume_fields(vs: Seq<VolumeModel>) -> Seq<Seq<char>> {
    vs.map_values(|v: VolumeModel| ser_volume(v))
}

/// The ten fields of a record line, in file order.
pub open spec fn ser_fields(e: EntryModel) -> Seq<Seq<char>> {
    seq![
        e.name,
        int_dec(e.pid),
        e.dir,
        join_with(e.command, '\t'),
        e.image,
        e.ports,
        bool_dec(e.isolated),
        join_with(volume_fields(e.volumes), ','),
        join_with(e.env_vars, ','),
        u64_dec(e.timestamp as nat),
    ]
}

/// The registry line of a record (without the trailing newline).
pub open spec fn ser_line(e: EntryModel) -> Seq<char> {
    join_with(ser_fields(e), '|')
}

fn volumes_field(vols: &Vec<VolumeMount>) -> (s: String)
    ensures
        s@ == join_with(volume_fields(vols.deep_view()), ','),
{
    let mut pieces: Vec<String> = Vec::new();
    let mut i: usize = 0;
    while i < vols.len()
        invariant
            0 <= i <= vols.len(),
            pieces@.len() == i,
            forall|j: int|
                0 <= j < i ==> (#[trigger] pieces@[j])@ == ser_volume(vols@[j]@),
        decreases vols.len() - i,
    {
        let mut p = vols[i].host.clone();
        push_char(&mut p, ':');
        p.append(vols[i].guest.as_str());
        proof {
            assert(p@ =~= ser_volume(vols@[i as int]@));
        }
        pieces.push(p);
        i += 1;
    }
    proof {
        assert forall|j: int|
            0 <= j < vols@.len() implies pieces.deep_view()[j] == volume_fields(
            vols.deep_view(),
        )[j] by {
            assert(pieces@[j]@ == ser_volume(vols@[j]@));
            assert(vols.deep_view()[j] == vols@[j]@);
        }
        assert(pieces.deep_view() =~= volume_fields(vols.deep_view()));
    }
    join_strings(&pieces, ',')
}

/// Write one record as its registry line.
pub fn serialize_entry(e: &ContainerEntry) -> (s: String)
    ensures
        s@ == ser_line(e@),
{
    let mut fields: Vec<String> = Vec::new();
    fields.push(e.name.clone());
    fields.push(i32_to_string(e.pid));
    fields.push(e.dir.clone());
    fields.push(join_strings(&e.command, '\t'));
    fields.push(e.image.clone());
    fields.push(e.ports.clone());
    fields.push(bool_to_string(e.isolated));
    fields.push(volumes_field(&e.volumes));
    fields.push(join_strings(&e.env_vars, ','));
    fields.push(u64_to_string(e.timestamp));
    let s = join_strings(&fields, '|');
    proof {
        assert(fields.deep_view() =~~= ser_fields(e@));
    }
    s
}

// ---------------------------------------------------------------------------
// Parsing
// ---------------------------------------------------------------------------

/// A list field: empty text is the empty list, anything else splits on `sep`.
pub open spec fn parse_list(f: Seq<char>, sep: char) -> Seq<Seq<char>> {
    if f.len() == 0 {
        Seq::empty()
    } else {
        split_on(f, sep)
    }
}

pub open spec fn parse_volume(p: Seq<char>) -> Option<VolumeModel> {
    let sub = split_on(p, ':');
    if sub.len() == 2 {
        Some(VolumeModel { host: sub[0], guest: sub[1] })
    } else {
        None
    }
}

pub open spec fn parse_volumes(f: Seq<char>) -> Option<Seq<VolumeModel>> {
    let pieces = parse_list(f, ',');
    if forall|i: int| 0 <= i < pieces.len() ==> (#[trigger] parse_volume(pieces[i])) is Some {
        Some(Seq::new(pieces.len(), |i: int| parse_volume(pieces[i])->Some_0))
    } else {
        None
    }
}

/// What one registry line means: `None` is a malformed line, skipped by
/// the reader.
pub open spec fn parse_line_spec(l: Seq<char>) -> Option<EntryModel> {
    let fs = split_on(l, '|');
    if fs.len() == 10 {
        if parse_i32_spec(fs[1]) is Some && parse_bool_spec(fs[6]) is Some && parse_volumes(
            fs[7],
        ) is Some && parse_u64_spec(fs[9]) is Some {
            Some(
                EntryModel {
                    name: fs[0],
                    pid: parse_i32_spec(fs[1])->Some_0 as int,
                    dir: fs[2],
                    command: parse_list(fs[3], '\t'),
                    image: fs[4],
                    ports: fs[5],
                    isolated: parse_bool_spec(fs[6])->Some_0,
                    volumes: parse_volumes(fs[7])->Some_0,
                    env_vars: parse_list(fs[8], ','),
                    timestamp: parse_u64_spec(fs[9])->Some_0 as int,
                },
            )
        } else {
            None
        }
    } else {
        None
    }
}

fn parse_list_str(f: &str, sep: char) -> (r: Vec<String>)
    ensures
        r.deep_view() == parse_list(f@, sep),
{
    if f.unicode_len() == 0 {
        let r: Vec<String> = Vec::new();
        proof {
            assert(r.deep_view() =~= parse_list(f@, sep));
        }
        r
    } else {
        split_str(f, sep)
    }
}

fn parse_volumes_str(f: &str) -> (r: Option<Vec<VolumeMount>>)
    ensures
        match r {
            Some(v) => parse_volumes(f@) == Some(v.deep_view()),
            None => parse_volumes(f@) is None,
        },
{
    let pieces = parse_list_str(f, ',');
    let ghost pieces_spec = parse_list(f@, ',');
    let mut vols: Vec<VolumeMount> = Vec::new();
    let mut i: usize = 0;
    while i < pieces.len()
        invariant
            0 <= i <= pieces.len(),
            pieces.deep_view() == pieces_spec,
            pieces_spec == parse_list(f@, ','),
            forall|j: int| 0 <= j < i ==> (#[trigger] parse_volume(pieces_spec[j])) is Some,
            vols@.len() == i,
            forall|j: int|
                0 <= j < i ==> (#[trigger] vols@[j])@ == parse_volume(pieces_spec[j])->Some_0,
        decreases pieces.len() - i,
    {
        let sub = split_str(pieces[i].as_str(), ':');
        proof {
            assert(pieces@[i as int]@ == pieces.deep_view()[i as int]);
            assert(pieces[i as int]@ == pieces_spec[i as int]);
        }
        if sub.len() != 2 {
            proof {
                assert(parse_volume(pieces_spec[i as int]) is None);
            }
            return None;
        }
        let host = sub[0].clone();
        let guest = sub[1].clone();
        proof {
            assert(sub@[0]@ == sub.deep_view()[0]);
            assert(sub@[1]@ == sub.deep_view()[1]);
            assert(sub.deep_view()[0] == split_on(pieces_spec[i as int], ':')[0]);
            assert(sub.deep_view()[1] == split_on(pieces_spec[i as int], ':')[1]);
        }
        vols.push(VolumeMount { host, guest });
        proof {
            assert(vols@[i as int]@ =~~= parse_volume(pieces_spec[i as int])->Some_0);
        }
        i += 1;
    }
    proof {
        assert(parse_volumes(f@) is Some);
        assert forall|j: int|
            0 <= j < vols@.len() implies vols.deep_view()[j] == parse_volumes(
            f@,
        )->Some_0[j] by {
            assert(vols@[j]@ == parse_volume(pieces_spec[j])->Some_0);
        }
        assert(parse_volumes(f@)->Some_0 =~= vols.deep_view());
    }
    Some(vols)
}

/// Read one registry line; a malformed line yields `None`.
pub fn parse_line(l: &str) -> (r: Option<ContainerEntry>)
    ensures
        match r {
            Some(e) => parse_line_spec(l@) == Some(e@),
            None => parse_line_spec(l@) is None,
        },
{
    let fields = split_str(l, '|');
    if fields.len() != 10 {
        return None;
    }
    proof {
        assert(forall|j: int|
            0 <= j < 10 ==> fields[j]@ == #[trigger] split_on(l@, '|')[j]);
    }
    let pid = match parse_i32_str(fields[1].as_str()) {
        Some(p) => p,
        None => {
            return None;
        },
    };
    let isolated = match parse_bool_str(fields[6].as_str()) {
        Some(b) => b,
        None => {
            return None;
        },
    };
    let volumes = match parse_volumes_str(fields[7].as_str()) {
        Some(v) => v,
        None => {
            return None;
        },
    };
    let timestamp = match parse_u64_str(fields[9].as_str()) {
        Some(t) => t,
        None => {
            return None;
        },
    };
    let command = parse_list_str(fields[3].as_str(), '\t');
    let env_vars = parse_list_str(fields[8].as_str(), ',');
    let e = ContainerEntry {
        name: fields[0].clone(),
        pid,
        dir: fields[2].clone(),
        command,
        image: fields[4].clone(),
        ports: fields[5].clone(),
        isolated,
        volumes,
        env_vars,
        timestamp,
    };
    proof {
        assert(parse_line_spec(l@) == Some(e@)) by {
            assert(parse_line_spec(l@)->Some_0 =~~= e@);
        }
    }
    Some(e)
}

// ---------------------------------------------------------------------------
// Round trip: a well-formed record's line reads back as the same record
// ---------------------------------------------------------------------------

proof fn lemma_list_roundtrip(items: Seq<Seq<char>>, sep: char)
    requires
        forall|i: int| 0 <= i < items.len() ==> !(#[trigger] items[i]).contains(sep),
        items.len() == 1 ==> items[0].len() > 0,
    ensures
        parse_list(join_with(items, sep), sep) == items,
{
    if items.len() == 0 {
        assert(parse_list(join_with(items, sep), sep) =~~= items);
    } else {
        assert(join_with(items, sep).len() > 0) by {
            if items.len() >= 2 {
                assert(join_with(items, sep) == items[0] + seq![sep] + join_with(
                    items.drop_first(),
                    sep,
                ));
            }
        }
        lemma_split_join(items, sep);
    }
}

proof fn lemma_volume_piece(v: VolumeModel)
    requires
        volume_part_ok(v.host),
        volume_part_ok(v.guest),
    ensures
        parse_volume(ser_volume(v)) == Some(v),
        !ser_volume(v).contains(','),
        !ser_volume(v).contains('|'),
        !ser_volume(v).contains('\n'),
        ser_volume(v).len() > 0,
{
    let parts = seq![v.host, v.guest];
    assert(join_with(parts, ':') =~= ser_volume(v)) by {
        assert(parts.drop_first() =~= seq![v.guest]);
        assert(join_with(seq![v.guest], ':') == v.guest);
    }
    lemma_split_join(parts, ':');
    assert(parse_volume(ser_volume(v))->Some_0 =~~= v);
    assert(!seq![':'].contains(',')) by {
        if seq![':'].contains(',') {
            let k = choose|k: int| 0 <= k < 1 && seq![':'][k] == ',';
        }
    }
    assert(!seq![':'].contains('|')) by {
        if seq![':'].contains('|') {
            let k = choose|k: int| 0 <= k < 1 && seq![':'][k] == '|';
        }
    }
    assert(!seq![':'].contains('\n')) by {
        if seq![':'].contains('\n') {
            let k = choose|k: int| 0 <= k < 1 && seq![':'][k] == '\n';
        }
    }
    lemma_concat_no_char(v.host, seq![':'], ',');
    lemma_concat_no_char(v.host + seq![':'], v.guest, ',');
    lemma_concat_no_char(v.host, seq![':'], '|');
    lemma_concat_no_char(v.host + seq![':'], v.guest, '|');
    lemma_concat_no_char(v.host, seq![':'], '\n');
    lemma_concat_no_char(v.host + seq![':'], v.guest, '\n');
    assert((v.host + seq![':']) + v.guest =~= ser_volume(v));
    assert(ser_volume(v).len() == v.host.len() + 1 + v.guest.len());
}

proof fn lemma_volumes_roundtrip(vols: Seq<VolumeModel>)
    requires
        forall|i: int|
            0 <= i < vols.len() ==> volume_part_ok((#[trigger] vols[i]).host) && volume_part_ok(
                vols[i].guest,
            ),
    ensures
        parse_volumes(join_with(volume_fields(vols), ',')) == Some(vols),
{
    let pieces = volume_fields(vols);
    assert forall|i: int| 0 <= i < pieces.len() implies !(#[trigger] pieces[i]).contains(',')
        && pieces[i].len() > 0 && parse_volume(pieces[i]) == Some(vols[i]) by {
        lemma_volume_piece(vols[i]);
    }
    lemma_list_roundtrip(pieces, ',');
    assert(parse_volumes(join_with(pieces, ',')) is Some);
    assert(parse_volumes(join_with(pieces, ','))->Some_0 =~~= vols);
}

/// Each field of a well-formed record's line is free of `|` and `\n`.
proof fn lemma_fields_clean(e: EntryModel)
    requires
        entry_wf(e),
    ensures
        forall|i: int|
            0 <= i < ser_fields(e).len() ==> !(#[trigger] ser_fields(e)[i]).contains('|') && !(
            ser_fields(e)[i]).contains('\n'),
{
    let fs = ser_fields(e);
    lemma_int_dec_no_char(e.pid, '|');
    lemma_int_dec_no_char(e.pid, '\n');
    lemma_join_no_char(e.command, '\t', '|');
    lemma_join_no_char(e.command, '\t', '\n');
    lemma_bool_dec_no_char(e.isolated, '|');
    lemma_bool_dec_no_char(e.isolated, '\n');
    assert forall|i: int|
        0 <= i < volume_fields(e.volumes).len() implies !(#[trigger] volume_fields(
        e.volumes,
    )[i]).contains('|') && !(volume_fields(e.volumes)[i]).contains('\n') by {
        lemma_volume_piece(e.volumes[i]);
    }
    lemma_join_no_char(volume_fields(e.volumes), ',', '|');
    lemma_join_no_char(volume_fields(e.volumes), ',', '\n');
    lemma_join_no_char(e.env_vars, ',', '|');
    lemma_join_no_char(e.env_vars, ',', '\n');
    lemma_u64_dec_digits(e.timestamp as nat);
    lemma_digits_no_char(u64_dec(e.timestamp as nat), '|');
    lemma_digits_no_char(u64_dec(e.timestamp as nat), '\n');
    assert forall|i: int|
        0 <= i < fs.len() implies !(#[trigger] fs[i]).contains('|') && !(fs[i]).contains(
        '\n',
    ) by {
        assert(fs[0] == e.name);
        assert(fs[1] == int_dec(e.pid));
        assert(fs[2] == e.dir);
        assert(fs[3] == join_with(e.command, '\t'));
        assert(fs[4] == e.image);
        assert(fs[5] == e.ports);
        assert(fs[6] == bool_dec(e.isolated));
        assert(fs[7] == join_with(volume_fields(e.volumes), ','));
        assert(fs[8] == join_with(e.env_vars, ','));
        assert(fs[9] == u64_dec(e.timestamp as nat));
    }
}

/// The line of a well-formed record parses back to the record.
pub proof fn lemma_line_roundtrip(e: EntryModel)
    requires
        entry_wf(e),
    ensures
        parse_line_spec(ser_line(e)) == Some(e),
{
    let fs = ser_fields(e);
    lemma_fields_clean(e);
    lemma_split_join(fs, '|');
    assert(split_on(ser_line(e), '|') == fs);
    lemma_i32_roundtrip(e.pid as i32);
    assert(int_dec(e.pid as i32 as int) == int_dec(e.pid));
    lemma_bool_roundtrip(e.isolated);
    lemma_volumes_roundtrip(e.volumes);
    lemma_u64_roundtrip(e.timestamp as u64);
    lemma_list_roundtrip(e.command, '\t');
    lemma_list_roundtrip(e.env_vars, ',');
    assert(parse_line_spec(ser_line(e)) is Some);
    assert(parse_line_spec(ser_line(e))->Some_0 =~~= e);
}

/// A well-formed record's line contains no newline.
pub proof fn lemma_line_no_newline(e: EntryModel)
    requires
        entry_wf(e),
    ensures
        !ser_line(e).contains('\n'),
{
    lemma_fields_clean(e);
    lemma_join_no_char(ser_fields(e), '|', '\n');
}

// ---------------------------------------------------------------------------
// The registry file: a sequence of lines, each ending with a newline
// ---------------------------------------------------------------------------

/// The registry text that stores the given records, one line each.
pub open spec fn ser_registry(entries: Seq<EntryModel>) -> Seq<char>
    decreases entries.len(),
{
    if entries.len() == 0 {
        Seq::empty()
    } else {
        ser_line(entries.first()) + seq!['\n'] + ser_registry(entries.drop_first())
    }
}

/// The records read from a sequence of lines; malformed lines are skipped.
pub open spec fn parse_lines(lines: Seq<Seq<char>>) -> Seq<EntryModel>
    decreases lines.len(),
{
    if lines.len() == 0 {
        Seq::empty()
    } else {
        (match parse_line_spec(lines.first()) {
            Some(e) => seq![e],
            None => Seq::empty(),
        }) + parse_lines(lines.drop_first())
    }
}

/// The records stored in registry text.
pub open spec fn parse_registry_spec(content: Seq<char>) -> Seq<EntryModel> {
    parse_lines(split_on(content, '\n'))
}

/// Reading the registry text of a sequence of well-formed records yields
/// exactly those records, in order. With `lemma_ser_registry_push` this is
/// the round trip of appending records and then listing them.
pub proof fn lemma_registry_roundtrip(entries: Seq<EntryModel>)
    requires
        forall|i: int| 0 <= i < entries.len() ==> entry_wf(#[trigger] entries[i]),
    ensures
        parse_registry_spec(ser_registry(entries)) == entries,
    decreases entries.len(),
{
    if entries.len() == 0 {
        let lines = split_on(Seq::empty(), '\n');
        assert(lines =~~= seq![Seq::<char>::empty()]);
        assert(split_on(Seq::empty(), '|') =~~= seq![Seq::<char>::empty()]);
        assert(parse_line_spec(Seq::empty()) is None);
        assert(lines.drop_first() =~~= Seq::<Seq<char>>::empty());
        assert(parse_lines(Seq::<Seq<char>>::empty()) =~~= Seq::<EntryModel>::empty());
        assert(parse_registry_spec(ser_registry(entries)) =~~= entries);
    } else {
        let e0 = entries.first();
        let rest = entries.drop_first();
        assert(forall|i: int| 0 <= i < rest.len() ==> rest[i] == #[trigger] entries[i + 1]);
        lemma_registry_roundtrip(rest);
        lemma_line_roundtrip(e0);
        lemma_line_no_newline(e0);
        lemma_split_concat(ser_line(e0), ser_registry(rest), '\n');
        let lines = split_on(ser_registry(entries), '\n');
        assert(lines == seq![ser_line(e0)] + split_on(ser_registry(rest), '\n'));
        assert(lines.first() == ser_line(e0));
        assert(lines.drop_first() =~~= split_on(ser_registry(rest), '\n'));
        assert(parse_registry_spec(ser_registry(entries)) =~~= entries);
    }
}

/// Appending one more record extends the registry text by one line.
pub proof fn lemma_ser_registry_push(entries: Seq<EntryModel>, e: EntryModel)
    ensures
        ser_registry(entries.push(e)) == ser_registry(entries) + ser_line(e) + seq!['\n'],
    decreases entries.len(),
{
    if entries.len() == 0 {
        assert(entries.push(e).first() == e);
        assert(entries.push(e).drop_first() =~~= Seq::<EntryModel>::empty());
        assert(ser_registry(Seq::<EntryModel>::empty()) =~= Seq::<char>::empty());
        assert(ser_registry(entries.push(e)) =~= ser_registry(entries) + ser_line(e) + seq!['\n']);
    } else {
        assert(entries.push(e).first() == entries.first());
        assert(entries.push(e).drop_first() =~~= entries.drop_first().push(e));
        lemma_ser_registry_push(entries.drop_first(), e);
        assert(ser_registry(entries.push(e)) =~= ser_registry(entries) + ser_line(e) + seq!['\n']);
    }
}

/// The registry text always ends at a line boundary.
pub proof fn lemma_ser_registry_newline(entries: Seq<EntryModel>)
    ensures
        ser_registry(entries).len() == 0 || ser_registry(entries).last() == '\n',
    decreases entries.len(),
{
    if entries.len() > 0 {
        lemma_ser_registry_newline(entries.drop_first());
        let head = ser_line(entries.first()) + seq!['\n'];
        let rest = ser_registry(entries.drop_first());
        assert(ser_registry(entries) =~= head + rest);
        if rest.len() == 0 {
            assert(ser_registry(entries).last() == head.last());
        } else {
            assert(ser_registry(entries).last() == rest.last());
        }
    }
}

/// Appending one well-formed record to the registry text of well-formed
/// records and then reading yields exactly the old records and then the
/// new one: the append path (close the last line, add one line) meets
/// the reader.
pub proof fn lemma_append_then_list(entries: Seq<EntryModel>, e: EntryModel)
    requires
        forall|i: int| 0 <= i < entries.len() ==> entry_wf(#[trigger] entries[i]),
        entry_wf(e),
    ensures
        ser_registry(entries).len() == 0 || ser_registry(entries).last() == '\n',
        ser_registry(entries) + ser_line(e) + seq!['\n'] == ser_registry(entries.push(e)),
        parse_registry_spec(ser_registry(entries.push(e))) == entries.push(e),
{
    lemma_ser_registry_newline(entries);
    lemma_ser_registry_push(entries, e);
    assert(forall|i: int|
        0 <= i < entries.push(e).len() ==> entry_wf(#[trigger] entries.push(e)[i]));
    lemma_registry_roundtrip(entries.push(e));
}

/// Reading tolerates damage: a malformed line anywhere in the file leaves
/// the records of the other lines exactly as they were.
pub proof fn lemma_parse_tolerant(lines: Seq<Seq<char>>, k: int, bad: Seq<char>)
    requires
        parse_line_spec(bad) is None,
        0 <= k <= lines.len(),
    ensures
        parse_lines(lines.insert(k, bad)) == parse_lines(lines),
    decreases lines.len(),
{
    if k == 0 {
        let with = lines.insert(0, bad);
        assert(with.first() == bad);
        assert(with.drop_first() =~~= lines);
        assert(parse_lines(with) =~~= parse_lines(lines));
    } else {
        let with = lines.insert(k, bad);
        assert(with.first() == lines.first());
        assert(with.drop_first() =~~= lines.drop_first().insert(k - 1, bad));
        lemma_parse_tolerant(lines.drop_first(), k - 1, bad);
        assert(parse_lines(with) =~~= parse_lines(lines));
    }
}

/// Extending the line list by one more line appends its record, if any.
pub proof fn lemma_parse_lines_push(lines: Seq<Seq<char>>, l: Seq<char>)
    ensures
        parse_lines(lines.push(l)) == parse_lines(lines) + (match parse_line_spec(l) {
            Some(e) => seq![e],
            None => Seq::<EntryModel>::empty(),
        }),
    decreases lines.len(),
{
    if lines.len() == 0 {
        assert(lines.push(l).first() == l);
        assert(lines.push(l).drop_first() =~~= Seq::<Seq<char>>::empty());
        assert(parse_lines(Seq::<Seq<char>>::empty()) =~~= Seq::<EntryModel>::empty());
        assert(parse_lines(lines.push(l)) =~= parse_lines(lines) + (match parse_line_spec(l) {
            Some(e) => seq![e],
            None => Seq::<EntryModel>::empty(),
        }));
    } else {
        assert(lines.push(l).first() == lines.first());
        assert(lines.push(l).drop_first() =~~= lines.drop_first().push(l));
        lemma_parse_lines_push(lines.drop_first(), l);
        assert(parse_lines(lines.push(l)) =~= parse_lines(lines) + (match parse_line_spec(l) {
            Some(e) => seq![e],
            None => Seq::<EntryModel>::empty(),
        }));
    }
}

// ---------------------------------------------------------------------------
// Executable registry reading and writing
// ---------------------------------------------------------------------------

/// Read every record out of registry text, skipping malformed lines,
/// preserving file order.
pub fn parse_registry(content: &str) -> (entries: Vec<ContainerEntry>)
    ensures
        entries.deep_view() == parse_registry_spec(content@),
{
    let lines = split_str(content, '\n');
    let ghost lines_spec = split_on(content@, '\n');
    let mut entries: Vec<ContainerEntry> = Vec::new();
    let mut i: usize = 0;
    while i < lines.len()
        invariant
            0 <= i <= lines.len(),
            lines.deep_view() == lines_spec,
            lines_spec == split_on(content@, '\n'),
            entries@.len() == parse_lines(lines_spec.subrange(0, i as int)).len(),
            forall|j: int|
                0 <= j < entries@.len() ==> (#[trigger] entries@[j])@ == parse_lines(
                    lines_spec.subrange(0, i as int),
                )[j],
        decreases lines.len() - i,
    {
        let ghost prefix = lines_spec.subrange(0, i as int);
        proof {
            assert(lines_spec.subrange(0, i + 1) =~~= prefix.push(lines_spec[i as int]));
            lemma_parse_lines_push(prefix, lines_spec[i as int]);
            assert(lines@[i as int]@ == lines.deep_view()[i as int]);
        }
        match parse_line(lines[i].as_str()) {
            Some(e) => {
                entries.push(e);
            },
            None => {},
        }
        i += 1;
    }
    proof {
        assert(lines_spec.subrange(0, lines@.len() as int) =~~= lines_spec);
        assert forall|j: int|
            0 <= j < entries@.len() implies entries.deep_view()[j] == parse_registry_spec(
            content@,
        )[j] by {
            assert(entries@[j]@ == parse_lines(lines_spec)[j]);
        }
        assert(entries.deep_view() =~= parse_registry_spec(content@));
    }
    entries
}

/// Write all records as registry text, one line per record.
pub fn serialize_registry(entries: &Vec<ContainerEntry>) -> (s: String)
    ensures
        s@ == ser_registry(entries.deep_view()),
{
    let mut s = String::new();
    let mut i: usize = 0;
    while i < entries.len()
        invariant
            0 <= i <= entries.len(),
            s@ == ser_registry(entries.deep_view().subrange(0, i as int)),
        decreases entries.len() - i,
    {
        let line = serialize_entry(&entries[i]);
        s.append(line.as_str());
        push_char(&mut s, '\n');
        proof {
            let prefix = entries.deep_view().subrange(0, i as int);
            assert(entries.deep_view().subrange(0, i + 1) =~~= prefix.push(
                entries.deep_view()[i as int],
            ));
            lemma_ser_registry_push(prefix, entries.deep_view()[i as int]);
            assert(entries@[i as int]@ == entries.deep_view()[i as int]);
            assert(s@ =~= ser_registry(entries.deep_view().subrange(0, i + 1)));
        }
        i += 1;
    }
    proof {
        assert(entries.deep_view().subrange(0, entries@.len() as int) =~~= entries.deep_view());
    }
    s
}

/// Append one record to registry text, first closing an unterminated
/// final line, as the on-disk store does on first registration.
pub fn append_record(content: &str, e: &ContainerEntry) -> (s: String)
    ensures
        s@ == content@ + (if content@.len() == 0 || content@.last() == '\n' {
            Seq::<char>::empty()
        } else {
            seq!['\n']
        }) + ser_line(e@) + seq!['\n'],
{
    let n = content.unicode_len();
    let mut s = String::from_str(content);
    if n > 0 && content.get_char(n - 1) != '\n' {
        push_char(&mut s, '\n');
    }
    let line = serialize_entry(e);
    s.append(line.as_str());
    push_char(&mut s, '\n');
    proof {
        assert(s@ =~= content@ + (if content@.len() == 0 || content@.last() == '\n' {
            Seq::<char>::empty()
        } else {
            seq!['\n']
        }) + ser_line(e@) + seq!['\n']);
    }
    s
}

} // verus!
