//! Organizations as the read side serves them, and the text in which a list
//! of them is shown.

use vstd::prelude::*;
use vstd::string::StringExecFns;
use vstd::utf8::encode_utf8;
use crate::entities::{duplicate_texts, AlternateId, OrganizationAttrs, OrganizationMetadata};
use crate::key::duplicate_partition;
use crate::record::{RecordView, VersionedRecord};
use crate::text_order::same_text;

verus! {

/// An identifier under which an organization is also known.
#[derive(Debug)]
pub struct AlternateIdSlice {
    pub id_type: String,
    pub id: String,
}

/// A key and value attached to an organization.
#[derive(Debug)]
pub struct OrganizationMetadataSlice {
    pub key: String,
    pub value: String,
    pub service_id: Option<String>,
}

/// An organization as it is served.
#[derive(Debug)]
pub struct OrganizationSlice {
    pub org_id: String,
    pub name: String,
    pub locations: Vec<String>,
    pub alternate_ids: Vec<AlternateIdSlice>,
    pub metadata: Vec<OrganizationMetadataSlice>,
    pub service_id: Option<String>,
}

/// Where a page stands in a list that is served in pages.
#[derive(Debug)]
pub struct Paging {
    pub current: String,
    pub offset: i64,
    pub limit: i64,
    pub total: i64,
    pub first: String,
    pub prev: String,
    pub next: Option<String>,
    pub last: String,
}

/// One page of a list of organizations.
#[derive(Debug)]
pub struct OrganizationListSlice {
    pub data: Vec<OrganizationSlice>,
    pub paging: Paging,
}

/// A served alternate identifier as plain values.
pub struct AlternateIdView {
    pub id_type: Seq<char>,
    pub id: Seq<char>,
}

/// Served metadata as plain values.
pub struct MetadataView {
    pub key: Seq<char>,
    pub value: Seq<char>,
    pub service_id: Option<Seq<char>>,
}

/// A served organization as plain values.
pub struct OrganizationView {
    pub org_id: Seq<char>,
    pub name: Seq<char>,
    pub locations: Seq<Seq<char>>,
    pub alternate_ids: Seq<AlternateIdView>,
    pub metadata: Seq<MetadataView>,
    pub service_id: Option<Seq<char>>,
}

impl View for AlternateIdSlice {
    type V = AlternateIdView;

    open spec fn view(&self) -> AlternateIdView {
        AlternateIdView { id_type: self.id_type@, id: self.id@ }
    }
}

impl View for OrganizationMetadataSlice {
    type V = MetadataView;

    open spec fn view(&self) -> MetadataView {
        MetadataView {
            key: self.key@,
            value: self.value@,
            service_id: self.service_id.deep_view(),
        }
    }
}

impl View for OrganizationSlice {
    type V = OrganizationView;

    open spec fn view(&self) -> OrganizationView {
        OrganizationView {
            org_id: self.org_id@,
            name: self.name@,
            locations: self.locations.deep_view(),
            alternate_ids: self.alternate_ids@.map_values(|id: AlternateIdSlice| id@),
            metadata: self.metadata@.map_values(|m: OrganizationMetadataSlice| m@),
            service_id: self.service_id.deep_view(),
        }
    }
}

/// A version of an organization as it is served: the name of its key is its
/// identifier, its partition the service that it and its metadata belong to.
pub open spec fn served_organization(r: RecordView<OrganizationAttrs>) -> OrganizationView {
    OrganizationView {
        org_id: r.key.name,
        name: r.payload.name@,
        locations: r.payload.locations.deep_view(),
        alternate_ids: r.payload.alternate_ids@.map_values(
            |id: AlternateId| AlternateIdView { id_type: id.id_type@, id: id.id@ },
        ),
        metadata: r.payload.metadata@.map_values(
            |m: OrganizationMetadata|
                MetadataView { key: m.key@, value: m.value@, service_id: r.partition },
        ),
        service_id: r.partition,
    }
}

/// The alternate identifiers of a version of an organization, as they are
/// served.
fn served_alternate_ids(ids: &Vec<AlternateId>) -> (served: Vec<AlternateIdSlice>)
    ensures
        served@.map_values(|id: AlternateIdSlice| id@) == ids@.map_values(
            |id: AlternateId| AlternateIdView { id_type: id.id_type@, id: id.id@ },
        ),
{
    let mut served: Vec<AlternateIdSlice> = Vec::new();
    let mut i: usize = 0;
    while i < ids.len()
        invariant
            i <= ids.len(),
            served.len() == i,
            forall|k: int|
                0 <= k < i ==> (#[trigger] served@[k])@ == (AlternateIdView {
                    id_type: ids@[k].id_type@,
                    id: ids@[k].id@,
                }),
        decreases ids.len() - i,
    {
        served.push(AlternateIdSlice { id_type: ids[i].id_type.clone(), id: ids[i].id.clone() });
        i += 1;
    }
    assert(served@.map_values(|id: AlternateIdSlice| id@) =~= ids@.map_values(
        |id: AlternateId| AlternateIdView { id_type: id.id_type@, id: id.id@ },
    ));
    served
}

/// The metadata of a version of an organization, as it is served.
fn served_metadata(metadata: &Vec<OrganizationMetadata>, service_id: &Option<String>) -> (served:
    Vec<OrganizationMetadataSlice>)
    ensures
        served@.map_values(|m: OrganizationMetadataSlice| m@) == metadata@.map_values(
            |m: OrganizationMetadata|
                MetadataView { key: m.key@, value: m.value@, service_id: service_id.deep_view() },
        ),
{
    let mut served: Vec<OrganizationMetadataSlice> = Vec::new();
    let mut i: usize = 0;
    while i < metadata.len()
        invariant
            i <= metadata.len(),
            served.len() == i,
            forall|k: int|
                0 <= k < i ==> (#[trigger] served@[k])@ == (MetadataView {
                    key: metadata@[k].key@,
                    value: metadata@[k].value@,
                    service_id: service_id.deep_view(),
                }),
        decreases metadata.len() - i,
    {
        served.push(
            OrganizationMetadataSlice {
                key: metadata[i].key.clone(),
                value: metadata[i].value.clone(),
                service_id: duplicate_partition(service_id),
            },
        );
        i += 1;
    }
    assert(served@.map_values(|m: OrganizationMetadataSlice| m@) =~= metadata@.map_values(
        |m: OrganizationMetadata|
            MetadataView { key: m.key@, value: m.value@, service_id: service_id.deep_view() },
    ));
    served
}

impl OrganizationSlice {
    /// A version of an organization as it is served.
    pub fn from_record(record: &VersionedRecord<OrganizationAttrs>) -> (served: OrganizationSlice)
        ensures
            served@ == served_organization(record@),
    {
        let served = OrganizationSlice {
            org_id: record.key.name.clone(),
            name: record.payload.name.clone(),
            locations: duplicate_texts(&record.payload.locations),
            alternate_ids: served_alternate_ids(&record.payload.alternate_ids),
            metadata: served_metadata(&record.payload.metadata, &record.service_partition),
            service_id: duplicate_partition(&record.service_partition),
        };
        assert(served@.metadata =~= served_organization(record@).metadata);
        served
    }
}

/// The texts joined in their order, with `separator` between each two.
pub open spec fn joined(parts: Seq<Seq<char>>, separator: Seq<char>) -> Seq<char>
    decreases parts.len(),
{
    if parts.len() == 0 {
        Seq::empty()
    } else if parts.len() == 1 {
        parts[0]
    } else {
        joined(parts.drop_last(), separator) + separator + parts.last()
    }
}

/// Joins the strings in their order, with `separator` between each two.
pub fn join_texts(parts: &Vec<String>, separator: &str) -> (text: String)
    ensures
        text@ == joined(parts.deep_view(), separator@),
{
    let ghost all = parts.deep_view();
    let mut text = String::new();
    let mut i: usize = 0;
    assert(all.take(0) =~= Seq::empty());
    while i < parts.len()
        invariant
            i <= parts.len(),
            all == parts.deep_view(),
            text@ == joined(all.take(i as int), separator@),
        decreases parts.len() - i,
    {
        proof {
            assert(all.take(i + 1).drop_last() =~= all.take(i as int));
            assert(all.take(i + 1).last() == parts@[i as int]@);
            if i == 0 {
                assert(text@ + parts@[i as int]@ =~= parts@[i as int]@);
            }
        }
        if i > 0 {
            text.append(separator);
        }
        text.append(parts[i].as_str());
        i += 1;
    }
    assert(all.take(all.len() as int) =~= all);
    text
}

/// The number of bytes that a text takes.
pub open spec fn byte_len(text: Seq<char>) -> nat {
    encode_utf8(text).len()
}

/// A run of `n` blanks.
pub open spec fn spaces(n: nat) -> Seq<char> {
    Seq::new(n, |i: int| ' ')
}

/// The largest number of cells in one of the first `n` rows.
pub open spec fn column_count(table: Seq<Seq<Seq<char>>>, n: int) -> nat
    decreases n,
{
    if n <= 0 {
        0
    } else if table[n - 1].len() > column_count(table, n - 1) {
        table[n - 1].len()
    } else {
        column_count(table, n - 1)
    }
}

/// The width of column `col` over the first `n` rows: the number of bytes of
/// its longest cell.
pub open spec fn column_width(table: Seq<Seq<Seq<char>>>, col: int, n: int) -> nat
    decreases n,
{
    if n <= 0 {
        0
    } else if col < table[n - 1].len() && byte_len(table[n - 1][col]) > column_width(
        table,
        col,
        n - 1,
    ) {
        byte_len(table[n - 1][col])
    } else {
        column_width(table, col, n - 1)
    }
}

/// `widths` holds the width of every column of the first `n` rows.
pub open spec fn widths_of(table: Seq<Seq<Seq<char>>>, n: int, widths: Seq<usize>) -> bool {
    &&& widths.len() == column_count(table, n)
    &&& forall|c: int| 0 <= c < widths.len() ==> #[trigger] widths[c] == column_width(table, c, n)
}

/// The width of every column of the table: a table has as many columns as
/// its longest row has cells.
pub open spec fn table_widths(table: Seq<Seq<Seq<char>>>) -> Seq<usize> {
    Seq::new(
        column_count(table, table.len() as int),
        |c: int| column_width(table, c, table.len() as int) as usize,
    )
}

/// The width of every column of the table.
pub fn column_widths(table: &Vec<Vec<String>>) -> (widths: Vec<usize>)
    ensures
        widths_of(table.deep_view(), table.len() as int, widths@),
        widths@ == table_widths(table.deep_view()),
{
    let ghost t = table.deep_view();
    let mut max_lengths: Vec<usize> = Vec::new();
    let mut r: usize = 0;
    while r < table.len()
        invariant
            r <= table.len(),
            t == table.deep_view(),
            widths_of(t, r as int, max_lengths@),
        decreases table.len() - r,
    {
        let row = &table[r];
        let ghost before = max_lengths@;
        let mut i: usize = 0;
        while i < row.len()
            invariant
                i <= row.len(),
                r < table.len(),
                t == table.deep_view(),
                row == &table@[r as int],
                widths_of(t, r as int, before),
                max_lengths@.len() == if before.len() > i {
                    before.len()
                } else {
                    i as nat
                },
                forall|c: int| 0 <= c < i ==> #[trigger] max_lengths@[c] == column_width(t, c, r + 1),
                forall|c: int| i <= c < max_lengths@.len() ==> #[trigger] max_lengths@[c] == before[c],
            decreases row.len() - i,
        {
            let length = row[i].as_str().as_bytes().len();
            proof {
                assert(t[r as int][i as int] == row@[i as int]@);
                assert(length == byte_len(t[r as int][i as int]));
                if i >= before.len() {
                    lemma_width_beyond(t, i as int, r as int);
                }
            }
            if i < max_lengths.len() {
                if length > max_lengths[i] {
                    max_lengths.set(i, length);
                }
            } else {
                max_lengths.push(length);
            }
            i += 1;
        }
        proof {
            assert(t[r as int].len() == row@.len());
            assert forall|c: int| 0 <= c < max_lengths@.len() implies #[trigger] max_lengths@[c]
                == column_width(t, c, r + 1) by {
                if c >= i {
                    assert(max_lengths@[c] == before[c]);
                }
            }
        }
        r += 1;
    }
    assert(max_lengths@ =~= table_widths(t));
    max_lengths
}

/// A column that no row of the first `n` reaches has no width.
pub proof fn lemma_width_beyond(table: Seq<Seq<Seq<char>>>, col: int, n: int)
    requires
        col >= column_count(table, n),
    ensures
        column_width(table, col, n) == 0,
    decreases n,
{
    if n > 0 {
        lemma_width_beyond(table, col, n - 1);
    }
}

/// No cell is wider than its column.
pub proof fn lemma_cell_fits(table: Seq<Seq<Seq<char>>>, row: int, col: int, n: int)
    requires
        0 <= row < n,
        0 <= col < table[row].len(),
    ensures
        byte_len(table[row][col]) <= column_width(table, col, n),
        col < column_count(table, n),
    decreases n,
{
    if row < n - 1 {
        lemma_cell_fits(table, row, col, n - 1);
    }
}

/// What column `i` holds in the line of `row`: the cell, filled up with
/// blanks to the width of the column, and one blank more; or, where the row
/// has no such cell, as many blanks as the column is wide.
pub open spec fn cell_text(row: Seq<Seq<char>>, widths: Seq<usize>, i: int) -> Seq<char> {
    if i < row.len() {
        row[i] + spaces((widths[i] - byte_len(row[i])) as nat) + seq![' ']
    } else {
        spaces(widths[i] as nat)
    }
}

/// The first `n` columns of the line of `row`.
pub open spec fn line_text(row: Seq<Seq<char>>, widths: Seq<usize>, n: int) -> Seq<char>
    decreases n,
{
    if n <= 0 {
        Seq::empty()
    } else {
        line_text(row, widths, n - 1) + cell_text(row, widths, n - 1)
    }
}

/// The first `n` lines of the table, each ended by a line feed.
pub open spec fn lines_text(table: Seq<Seq<Seq<char>>>, widths: Seq<usize>, n: int) -> Seq<char>
    decreases n,
{
    if n <= 0 {
        Seq::empty()
    } else {
        lines_text(table, widths, n - 1) + line_text(table[n - 1], widths, widths.len() as int)
            + seq!['\n']
    }
}

/// Adds `n` blanks to the text.
fn pad(text: &mut String, n: usize)
    ensures
        final(text)@ == old(text)@ + spaces(n as nat),
{
    let mut k: usize = 0;
    assert(text@ =~= old(text)@ + spaces(0));
    while k < n
        invariant
            k <= n,
            text@ == old(text)@ + spaces(k as nat),
        decreases n - k,
    {
        proof {
            reveal_strlit(" ");
            assert(" "@ =~= seq![' ']);
            assert(spaces((k + 1) as nat) =~= spaces(k as nat) + seq![' ']);
        }
        text.append(" ");
        k += 1;
        assert(text@ =~= old(text)@ + spaces(k as nat));
    }
}

/// The line of `row` in a table whose columns have the given widths.
fn table_line(row: &Vec<String>, widths: &Vec<usize>) -> (line: String)
    requires
        forall|i: int|
            0 <= i < row.len() && i < widths.len() ==> byte_len(#[trigger] row@[i]@) <= widths@[i],
    ensures
        line@ == line_text(row.deep_view(), widths@, widths.len() as int),
{
    let ghost cells = row.deep_view();
    let mut line = String::new();
    let mut i: usize = 0;
    while i < widths.len()
        invariant
            i <= widths.len(),
            cells == row.deep_view(),
            forall|k: int|
                0 <= k < row.len() && k < widths.len() ==> byte_len(#[trigger] row@[k]@)
                    <= widths@[k],
            line@ == line_text(cells, widths@, i as int),
        decreases widths.len() - i,
    {
        let ghost before = line@;
        if i < row.len() {
            let value = row[i].as_str();
            assert(cells[i as int] == row@[i as int]@);
            assert(byte_len(row@[i as int]@) <= widths@[i as int]);
            line.append(value);
            pad(&mut line, widths[i] - value.as_bytes().len());
            proof {
                reveal_strlit(" ");
                assert(" "@ =~= seq![' ']);
            }
            line.append(" ");
            assert(line@ =~= before + cell_text(cells, widths@, i as int));
        } else {
            pad(&mut line, widths[i]);
            assert(line@ =~= before + cell_text(cells, widths@, i as int));
        }
        i += 1;
    }
    line
}

/// The text of the table. The first row should hold the titles of the
/// columns. Each column is as wide as its longest cell, and each row is a
/// line of its own.
pub fn table_text(table: &Vec<Vec<String>>) -> (text: String)
    ensures
        text@ == lines_text(
            table.deep_view(),
            table_widths(table.deep_view()),
            table.len() as int,
        ),
{
    let ghost t = table.deep_view();
    let widths = column_widths(table);
    let mut text = String::new();
    let mut r: usize = 0;
    while r < table.len()
        invariant
            r <= table.len(),
            t == table.deep_view(),
            widths_of(t, table.len() as int, widths@),
            text@ == lines_text(t, widths@, r as int),
        decreases table.len() - r,
    {
        let ghost before = text@;
        proof {
            assert forall|i: int|
                0 <= i < table@[r as int].len() && i < widths.len() implies byte_len(
                #[trigger] table@[r as int]@[i]@,
            ) <= widths@[i] by {
                assert(t[r as int][i] == table@[r as int]@[i]@);
                lemma_cell_fits(t, r as int, i, table.len() as int);
            }
        }
        let line = table_line(&table[r], &widths);
        text.append(line.as_str());
        proof {
            reveal_strlit("\n");
            assert("\n"@ =~= seq!['\n']);
        }
        text.append("\n");
        assert(text@ =~= before + line_text(t[r as int], widths@, widths.len() as int) + seq![
            '\n',
        ]);
        r += 1;
    }
    text
}

/// An alternate identifier as it is shown: its type, a colon, and the
/// identifier.
pub open spec fn alternate_id_text(id: AlternateIdSlice) -> Seq<char> {
    id.id_type@ + ":"@ + id.id@
}

/// The alternate identifiers as they are shown.
pub open spec fn alternate_id_texts(ids: Seq<AlternateIdSlice>) -> Seq<Seq<char>> {
    ids.map_values(|id: AlternateIdSlice| alternate_id_text(id))
}

/// The titles of the columns.
pub open spec fn header_row(display_alternate_ids: bool) -> Seq<Seq<char>> {
    if display_alternate_ids {
        seq!["ORG_ID"@, "NAME"@, "LOCATIONS"@, "ALTERNATE_IDS"@]
    } else {
        seq!["ORG_ID"@, "NAME"@, "LOCATIONS"@]
    }
}

/// The cells of an organization: its identifier, its name, its locations
/// and, where they are asked for, its alternate identifiers, the items of a
/// list parted by a comma and a blank.
pub open spec fn organization_row(org: OrganizationSlice, display_alternate_ids: bool) -> Seq<
    Seq<char>,
> {
    if display_alternate_ids {
        seq![
            org.org_id@,
            org.name@,
            joined(org.locations.deep_view(), ", "@),
            joined(alternate_id_texts(org.alternate_ids@), ", "@),
        ]
    } else {
        seq![org.org_id@, org.name@, joined(org.locations.deep_view(), ", "@)]
    }
}

/// The table of the organizations: the titles, then a row for each of them.
pub open spec fn organization_table(
    orgs: Seq<OrganizationSlice>,
    display_alternate_ids: bool,
) -> Seq<Seq<Seq<char>>> {
    seq![header_row(display_alternate_ids)] + orgs.map_values(
        |org: OrganizationSlice| organization_row(org, display_alternate_ids),
    )
}

/// The alternate identifiers of an organization in one cell.
fn alternate_ids_cell(ids: &Vec<AlternateIdSlice>) -> (cell: String)
    ensures
        cell@ == joined(alternate_id_texts(ids@), ", "@),
{
    let mut texts: Vec<String> = Vec::new();
    let mut i: usize = 0;
    while i < ids.len()
        invariant
            i <= ids.len(),
            texts.len() == i,
            forall|k: int| 0 <= k < i ==> texts@[k]@ == alternate_id_text(ids@[k]),
        decreases ids.len() - i,
    {
        let mut text = String::new();
        text.append(ids[i].id_type.as_str());
        text.append(":");
        text.append(ids[i].id.as_str());
        assert(text@ =~= alternate_id_text(ids@[i as int]));
        texts.push(text);
        i += 1;
    }
    assert(texts.deep_view() =~= alternate_id_texts(ids@));
    join_texts(&texts, ", ")
}

/// The table of the organizations: the titles of the columns, then a row
/// for each organization.
pub fn organization_rows(orgs: &Vec<OrganizationSlice>, display_alternate_ids: bool) -> (rows: Vec<
    Vec<String>,
>)
    ensures
        rows.deep_view() == organization_table(orgs@, display_alternate_ids),
{
    let mut rows: Vec<Vec<String>> = Vec::new();
    let mut headers: Vec<String> = Vec::new();
    headers.push("ORG_ID".to_owned());
    headers.push("NAME".to_owned());
    headers.push("LOCATIONS".to_owned());
    if display_alternate_ids {
        headers.push("ALTERNATE_IDS".to_owned());
    }
    assert(headers.deep_view() =~= header_row(display_alternate_ids));
    rows.push(headers);
    let mut i: usize = 0;
    while i < orgs.len()
        invariant
            i <= orgs.len(),
            rows.len() == i + 1,
            rows@[0].deep_view() == header_row(display_alternate_ids),
            forall|k: int|
                0 <= k < i ==> (#[trigger] rows@[k + 1]).deep_view() == organization_row(
                    orgs@[k],
                    display_alternate_ids,
                ),
        decreases orgs.len() - i,
    {
        let org = &orgs[i];
        let mut values: Vec<String> = Vec::new();
        values.push(org.org_id.clone());
        values.push(org.name.clone());
        values.push(join_texts(&org.locations, ", "));
        if display_alternate_ids {
            values.push(alternate_ids_cell(&org.alternate_ids));
        }
        assert(values.deep_view() =~= organization_row(orgs@[i as int], display_alternate_ids));
        rows.push(values);
        i += 1;
    }
    proof {
        let table = organization_table(orgs@, display_alternate_ids);
        assert(rows.deep_view().len() == table.len());
        assert forall|k: int| 0 <= k < table.len() implies rows.deep_view()[k] == table[k] by {
            if k > 0 {
                assert(rows@[(k - 1) + 1].deep_view() == organization_row(
                    orgs@[k - 1],
                    display_alternate_ids,
                ));
            }
        }
        assert(rows.deep_view() =~= table);
    }
    rows
}

/// The first `n` rows of the table, the cells of each parted by commas, and
/// one row set after the other without anything between them.
pub open spec fn csv_text(table: Seq<Seq<Seq<char>>>, n: int) -> Seq<char>
    decreases n,
{
    if n <= 0 {
        Seq::empty()
    } else {
        csv_text(table, n - 1) + joined(table[n - 1], ","@)
    }
}

/// The text in which the organizations are shown. With the format `csv` the
/// cells of a row are parted by commas and the rows follow each other
/// directly; with any other format the text is a table with a line for each
/// row.
pub open spec fn organizations_text(
    orgs: Seq<OrganizationSlice>,
    format: Seq<char>,
    display_alternate_ids: bool,
) -> Seq<char> {
    let table = organization_table(orgs, display_alternate_ids);
    if format == "csv"@ {
        csv_text(table, table.len() as int)
    } else {
        lines_text(table, table_widths(table), table.len() as int)
    }
}

/// The text in which the organizations are shown, as `organizations_text`
/// states it.
pub fn list_organizations(
    orgs: &Vec<OrganizationSlice>,
    format: &str,
    display_alternate_ids: bool,
) -> (text: String)
    ensures
        text@ == organizations_text(orgs@, format@, display_alternate_ids),
{
    let rows = organization_rows(orgs, display_alternate_ids);
    let ghost table = rows.deep_view();
    if same_text(format, "csv") {
        let mut text = String::new();
        let mut r: usize = 0;
        while r < rows.len()
            invariant
                r <= rows.len(),
                table == rows.deep_view(),
                text@ == csv_text(table, r as int),
            decreases rows.len() - r,
        {
            let line = join_texts(&rows[r], ",");
            assert(table[r as int] == rows@[r as int].deep_view());
            text.append(line.as_str());
            r += 1;
        }
        text
    } else {
        table_text(&rows)
    }
}

/// The address at which the list of organizations begins.
pub open spec fn organizations_url(url: Seq<char>, service_id: Option<Seq<char>>) -> Seq<char> {
    match service_id {
        Some(id) => url + "/organization"@ + "?service_id="@ + id,
        None => url + "/organization"@,
    }
}

/// The address of the page that a page names as the next one.
pub open spec fn page_url(url: Seq<char>, next: Option<Seq<char>>) -> Option<Seq<char>> {
    match next {
        Some(path) => Some(url + path),
        None => None,
    }
}

/// A list of organizations that is fetched page by page.
pub struct ListingView {
    pub url: Seq<char>,
    pub pending: Option<Seq<char>>,
    pub collected: Seq<OrganizationSlice>,
}

/// The state of fetching a list of organizations: the address to ask next,
/// and what has come in so far.
pub struct OrganizationListing {
    url: String,
    pending: Option<String>,
    collected: Vec<OrganizationSlice>,
}

impl View for OrganizationListing {
    type V = ListingView;

    closed spec fn view(&self) -> ListingView {
        ListingView {
            url: self.url@,
            pending: self.pending.deep_view(),
            collected: self.collected@,
        }
    }
}

impl OrganizationListing {
    /// Begins a listing at the service under `url`: the first page to ask for
    /// is that of all organizations, or of those of `service_id`.
    pub fn begin(url: &str, service_id: &Option<String>) -> (listing: Self)
        ensures
            listing@.url == url@,
            listing@.pending == Some(organizations_url(url@, service_id.deep_view())),
            listing@.collected.len() == 0,
    {
        let mut first = url.to_owned();
        first.append("/organization");
        match service_id {
            Some(id) => {
                first.append("?service_id=");
                first.append(id.as_str());
            },
            None => {},
        }
        assert(first@ =~= organizations_url(url@, service_id.deep_view()));
        OrganizationListing { url: url.to_owned(), pending: Some(first), collected: Vec::new() }
    }

    /// The address to ask next, or nothing when the list is complete.
    pub fn next_request(&self) -> (address: Option<&str>)
        ensures
            match address {
                Some(a) => self@.pending == Some(a@),
                None => self@.pending is None,
            },
    {
        match &self.pending {
            Some(a) => Some(a.as_str()),
            None => None,
        }
    }

    /// Takes in a page: its organizations follow those that came before, and
    /// the page it names as the next one is the one to ask for, if it names
    /// any.
    pub fn receive(&mut self, page: OrganizationListSlice)
        ensures
            final(self)@.url == old(self)@.url,
            final(self)@.collected == old(self)@.collected + page.data@,
            final(self)@.pending == page_url(old(self)@.url, page.paging.next.deep_view()),
    {
        let OrganizationListSlice { data, paging } = page;
        let mut data = data;
        self.collected.append(&mut data);
        match paging.next {
            Some(path) => {
                let mut address = self.url.clone();
                address.append(path.as_str());
                self.pending = Some(address);
            },
            None => {
                self.pending = None;
            },
        }
    }

    /// The organizations that have come in.
    pub fn into_organizations(self) -> (orgs: Vec<OrganizationSlice>)
        ensures
            orgs@ == self@.collected,
    {
        self.collected
    }
}

} // verus!
