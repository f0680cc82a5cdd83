use vstd::prelude::*;
use vstd::string::StringExecFns;

use crate::order::{is_name_order, lemma_name_order_unique, order_by_name, name_order, views};
use crate::placeholders::{apply_all, lemma_lookup_at, lemma_sorted_pairs_unique, lookup, keys_of, replace_placeholders, sorted_pairs, Placeholders};
use crate::replace::{lemma_occurs_in, lemma_occurs_trans, lemma_replace_absent, occurs};
use crate::placeholders::lemma_apply_all_absent;
use crate::text::str_lt;

verus! {

broadcast use vstd::string::group_string_axioms;

/// The pieces joined end to end.
pub open spec fn concat(parts: Seq<Seq<char>>) -> Seq<char>
    decreases parts.len(),
{
    if parts.len() == 0 {
        Seq::empty()
    } else {
        concat(parts.drop_last()) + parts.last()
    }
}

/// Joining two lists of pieces joins their joins.
pub proof fn lemma_concat_append(a: Seq<Seq<char>>, b: Seq<Seq<char>>)
    ensures
        concat(a + b) == concat(a) + concat(b),
    decreases b.len(),
{
    if b.len() == 0 {
        assert(a + b =~= a);
        assert(concat(a) + concat(b) =~= concat(a));
    } else {
        lemma_concat_append(a, b.drop_last());
        assert((a + b).drop_last() =~= a + b.drop_last());
        assert((a + b).last() == b.last());
    }
}

/// Every piece occurs in the joined text.
pub proof fn lemma_concat_has_part(parts: Seq<Seq<char>>, k: int)
    requires
        0 <= k < parts.len(),
    ensures
        occurs(concat(parts), parts[k]),
{
    let a = parts.take(k);
    let one = seq![parts[k]];
    let c = parts.skip(k + 1);
    assert(parts =~= a + one + c);
    lemma_concat_append(a + one, c);
    lemma_concat_append(a, one);
    assert(one.drop_last() =~= Seq::<Seq<char>>::empty());
    assert(concat(one.drop_last()) == Seq::<char>::empty());
    assert(concat(one) =~= parts[k]);
    lemma_occurs_in(concat(a), parts[k], concat(c));
}

pub open spec fn content_key() -> Seq<char> {
    "$CONTENT"@
}

pub open spec fn navcloud_key() -> Seq<char> {
    "$NAVCLOUD"@
}

pub open spec fn title_key() -> Seq<char> {
    "$TITLE"@
}

/// The placeholders of a page, as the map `{$CONTENT: content, $TITLE: title,
/// $NAVCLOUD: navcloud}` lists them: in the order of their keys.
pub open spec fn page_placeholders(content: Seq<char>, navcloud: Seq<char>, title: Seq<char>) -> Seq<(Seq<char>, Seq<char>)> {
    seq![(content_key(), content), (navcloud_key(), navcloud), (title_key(), title)]
}

/// A page: the template with its three placeholders replaced.
pub open spec fn page(template: Seq<char>, content: Seq<char>, navcloud: Seq<char>, title: Seq<char>) -> Seq<char> {
    apply_all(template, page_placeholders(content, navcloud, title))
}

proof fn lemma_page_keys_sorted(content: Seq<char>, navcloud: Seq<char>, title: Seq<char>)
    ensures
        sorted_pairs(page_placeholders(content, navcloud, title)),
        content_key() != navcloud_key(),
        content_key() != title_key(),
        navcloud_key() != title_key(),
{
    reveal_strlit("$CONTENT");
    reveal_strlit("$NAVCLOUD");
    reveal_strlit("$TITLE");
    reveal_with_fuel(str_lt, 3);
    let p = page_placeholders(content, navcloud, title);
    let k = keys_of(p);
    assert(k[0] == content_key() && k[1] == navcloud_key() && k[2] == title_key());
    assert(str_lt(content_key(), navcloud_key()));
    assert(str_lt(navcloud_key(), title_key()));
    assert(str_lt(content_key(), title_key()));
    assert(content_key()[1] != navcloud_key()[1]);
    assert(content_key()[1] != title_key()[1]);
    assert(navcloud_key()[1] != title_key()[1]);
}

/// A template in which none of `$CONTENT`, `$NAVCLOUD` and `$TITLE` occurs
/// is the page itself, whatever the page holds.
pub proof fn lemma_page_without_placeholders(template: Seq<char>, content: Seq<char>, navcloud: Seq<char>, title: Seq<char>)
    requires
        !occurs(template, content_key()),
        !occurs(template, navcloud_key()),
        !occurs(template, title_key()),
    ensures
        page(template, content, navcloud, title) == template,
{
    reveal_strlit("$CONTENT");
    reveal_strlit("$NAVCLOUD");
    reveal_strlit("$TITLE");
    let p = page_placeholders(content, navcloud, title);
    assert(p[0].0 == content_key() && p[1].0 == navcloud_key() && p[2].0 == title_key());
    lemma_apply_all_absent(template, p);
}

/// The map `{$CONTENT: content, $TITLE: title, $NAVCLOUD: navcloud}`.
fn page_map(content: String, navcloud: String, title: String) -> (m: Placeholders)
    ensures
        m.wf(),
        m@ == page_placeholders(content@, navcloud@, title@),
{
    let ghost (c, n, t) = (content@, navcloud@, title@);
    let mut m = Placeholders::new();
    m.insert(String::from_str("$CONTENT"), content);
    m.insert(String::from_str("$TITLE"), title);
    m.insert(String::from_str("$NAVCLOUD"), navcloud);
    proof {
        let q = page_placeholders(c, n, t);
        lemma_page_keys_sorted(c, n, t);
        lemma_lookup_at(q, 0);
        lemma_lookup_at(q, 1);
        lemma_lookup_at(q, 2);
        assert forall|k: Seq<char>| lookup(m@, k) == lookup(q, k) by {
            if k != content_key() && k != navcloud_key() && k != title_key() {
                assert forall|i: int| 0 <= i < q.len() implies q[i].0 != k by {}
            }
        }
        lemma_sorted_pairs_unique(m@, q);
    }
    m
}

/// The map `{$NAVCLOUD: navcloud}`.
fn navcloud_map(navcloud: String) -> (m: Placeholders)
    ensures
        m.wf(),
        m@ == seq![(navcloud_key(), navcloud@)],
{
    let ghost n = navcloud@;
    let mut m = Placeholders::new();
    m.insert(String::from_str("$NAVCLOUD"), navcloud);
    proof {
        let q = seq![(navcloud_key(), n)];
        assert(sorted_pairs(q));
        lemma_lookup_at(q, 0);
        assert forall|k: Seq<char>| lookup(m@, k) == lookup(q, k) by {
            if k != navcloud_key() {
                assert forall|i: int| 0 <= i < q.len() implies q[i].0 != k by {}
            }
        }
        lemma_sorted_pairs_unique(m@, q);
    }
    m
}

/// `<p>` + the text with each line break turned into `</p><p>` + `</p>`.
pub open spec fn paragraphs(text: Seq<char>) -> Seq<char> {
    "<p>"@ + crate::replace::replace_all(text, "\n"@, "</p><p>"@) + "</p>"@
}

/// A text without line breaks is one paragraph.
pub proof fn lemma_single_paragraph(text: Seq<char>)
    requires
        !occurs(text, "\n"@),
    ensures
        paragraphs(text) == "<p>"@ + text + "</p>"@,
{
    reveal_strlit("\n");
    lemma_replace_absent(text, "\n"@, "</p><p>"@);
}

/// The text as HTML paragraphs, one per line.
pub fn text_to_paragraphs(text: &str) -> (r: String)
    ensures
        r@ == paragraphs(text@),
{
    let body = crate::replace::replace_str(text, "\n", "</p><p>");
    let mut r = String::from_str("<p>");
    r.append(body.as_str());
    r.append("</p>");
    r
}

/// What `String::from_utf8_lossy` makes of `bytes`: the UTF-8 text, with
/// U+FFFD in place of each invalid sequence.
pub uninterp spec fn utf8_lossy(bytes: Seq<u8>) -> Seq<char>;

/// Decodes UTF-8 with `String::from_utf8_lossy`. Claimed: the result is
/// `utf8_lossy` of the bytes, and for valid UTF-8 it is the decoded text
/// (the function's documentation). How invalid sequences are replaced is left
/// to the name.
#[verifier::external_body]
fn decode_lossy(bytes: &[u8]) -> (text: String)
    ensures
        text@ == utf8_lossy(bytes@),
        vstd::utf8::valid_utf8(bytes@) ==> text@ == vstd::utf8::decode_utf8(bytes@),
{
    String::from_utf8_lossy(bytes).into_owned()
}

/// A text file as HTML: its lines as paragraphs, encoded in UTF-8.
pub fn txt_to_html(content: Vec<u8>) -> (html: Vec<u8>)
    ensures
        html@ == vstd::utf8::encode_utf8(paragraphs(utf8_lossy(content@))),
        vstd::utf8::valid_utf8(content@) ==> html@ == vstd::utf8::encode_utf8(
            paragraphs(vstd::utf8::decode_utf8(content@)),
        ),
{
    let text = decode_lossy(content.as_slice());
    let html = text_to_paragraphs(text.as_str());
    html.as_str().as_bytes_vec()
}


/// Joining one more piece appends it.
proof fn lemma_concat_step(parts: Seq<Seq<char>>, k: int)
    requires
        0 <= k < parts.len(),
    ensures
        concat(parts.take(k + 1)) == concat(parts.take(k)) + parts[k],
{
    assert(parts.take(k + 1).drop_last() =~= parts.take(k));
}

/// The link to one image of an entry page.
pub open spec fn image_link(name: Seq<char>) -> Seq<char> {
    "<a href=\"images/"@ + name + "\" target=\"_blank\">\n<img src=\"images/"@ + name + "\" alt=\""@
        + name + "\">\n</a>"@
}

/// An image link points at the image's own file: its `href` and `src` are
/// `images/` followed by the file name unchanged, and its `alt` text is the
/// file name.
pub proof fn lemma_image_link_targets(name: Seq<char>)
    ensures
        occurs(image_link(name), "href=\"images/"@ + name + "\""@),
        occurs(image_link(name), "src=\"images/"@ + name + "\""@),
        occurs(image_link(name), "alt=\""@ + name + "\""@),
{
    reveal_strlit("<a href=\"images/");
    reveal_strlit("\" target=\"_blank\">\n<img src=\"images/");
    reveal_strlit("\" alt=\"");
    reveal_strlit("\">\n</a>");
    reveal_strlit("href=\"images/");
    reveal_strlit("src=\"images/");
    reveal_strlit("alt=\"");
    reveal_strlit("\"");
    reveal_strlit("<a ");
    reveal_strlit(" target=\"_blank\">\n<img src=\"images/");
    reveal_strlit("<a href=\"images/");
    reveal_strlit("\" target=\"_blank\">\n<img ");
    reveal_strlit(" alt=\"");
    reveal_strlit("\" ");
    reveal_strlit(">\n</a>");
    let l = image_link(name);
    let w1 = "href=\"images/"@ + name + "\""@;
    assert(l =~= "<a "@ + w1 + (" target=\"_blank\">\n<img src=\"images/"@ + name + "\" alt=\""@ + name
        + "\">\n</a>"@));
    lemma_occurs_in("<a "@, w1, " target=\"_blank\">\n<img src=\"images/"@ + name + "\" alt=\""@ + name
        + "\">\n</a>"@);
    let w2 = "src=\"images/"@ + name + "\""@;
    let a2 = "<a href=\"images/"@ + name + "\" target=\"_blank\">\n<img "@;
    let c2 = " alt=\""@ + name + "\">\n</a>"@;
    assert(l =~= a2 + w2 + c2);
    lemma_occurs_in(a2, w2, c2);
    let w3 = "alt=\""@ + name + "\""@;
    let a3 = "<a href=\"images/"@ + name + "\" target=\"_blank\">\n<img src=\"images/"@ + name + "\" "@;
    let c3 = ">\n</a>"@;
    assert(l =~= a3 + w3 + c3);
    lemma_occurs_in(a3, w3, c3);
}

/// The links to the images, in the order of their names.
pub open spec fn image_links(names: Seq<Seq<char>>) -> Seq<Seq<char>> {
    Seq::new(names.len(), |k: int| image_link(names[name_order(names)[k] as int]))
}

/// The sorted order, once one exists, is the order the pages use.
proof fn lemma_name_order_is(names: Seq<Seq<char>>, ord: Seq<usize>)
    requires
        is_name_order(names, ord),
    ensures
        name_order(names) == ord,
        is_name_order(names, name_order(names)),
{
    assert(is_name_order(names, name_order(names)));
    lemma_name_order_unique(names, ord, name_order(names));
}

/// The position at which image `i` is listed.
proof fn lemma_listed_at(names: Seq<Seq<char>>, ord: Seq<usize>, i: usize) -> (k: int)
    requires
        is_name_order(names, ord),
        i < names.len(),
    ensures
        0 <= k < ord.len(),
        ord[k] == i,
{
    assert(ord.contains(i));
    choose|k: int| 0 <= k < ord.len() && ord[k] == i
}

/// Every image of an entry gets a link in the gallery, pointing at its own
/// file (`images/` and the file name unchanged) with the file name as `alt`.
pub proof fn lemma_gallery_links_every_image(names: Seq<Seq<char>>, ord: Seq<usize>, i: usize)
    requires
        is_name_order(names, ord),
        i < names.len(),
    ensures
        occurs(concat(image_links(names)), "href=\"images/"@ + names[i as int] + "\""@),
        occurs(concat(image_links(names)), "src=\"images/"@ + names[i as int] + "\""@),
        occurs(concat(image_links(names)), "alt=\""@ + names[i as int] + "\""@),
{
    lemma_name_order_is(names, ord);
    let k = lemma_listed_at(names, ord, i);
    let parts = image_links(names);
    assert(parts[k] == image_link(names[i as int]));
    lemma_concat_has_part(parts, k);
    lemma_image_link_targets(names[i as int]);
    lemma_occurs_trans(concat(parts), parts[k], "href=\"images/"@ + names[i as int] + "\""@);
    lemma_occurs_trans(concat(parts), parts[k], "src=\"images/"@ + names[i as int] + "\""@);
    lemma_occurs_trans(concat(parts), parts[k], "alt=\""@ + names[i as int] + "\""@);
}

/// The gallery of an entry page: a link to each image, sorted by file name.
pub fn generate_gallery_content(image_names: &Vec<String>) -> (html: String)
    ensures
        html@ == "<div class=\"gallery\">\n"@ + concat(image_links(views(image_names@)))
            + "</div>\n"@,
        forall|i: usize|
            #![trigger image_names@[i as int]]
            i < image_names@.len() ==> occurs(html@, "src=\"images/"@ + image_names@[i as int]@ + "\""@)
                && occurs(html@, "href=\"images/"@ + image_names@[i as int]@ + "\""@),
{
    let ghost nv = views(image_names@);
    let ord = order_by_name(image_names);
    let ghost parts = image_links(nv);
    let mut html = String::from_str("<div class=\"gallery\">\n");
    let ghost head = html@;
    let mut k: usize = 0;
    proof {
        assert(parts.take(0) =~= Seq::<Seq<char>>::empty());
        assert(ord@.len() == nv.len());
    }
    while k < ord.len()
        invariant
            nv == views(image_names@),
            ord@ == name_order(nv),
            ord@.len() == nv.len(),
            forall|j: int| 0 <= j < ord@.len() ==> #[trigger] ord@[j] < nv.len(),
            parts == image_links(nv),
            k <= ord@.len(),
            html@ == head + concat(parts.take(k as int)),
        decreases ord@.len() - k,
    {
        let name = image_names[ord[k]].as_str();
        html.append("<a href=\"images/");
        html.append(name);
        html.append("\" target=\"_blank\">\n<img src=\"images/");
        html.append(name);
        html.append("\" alt=\"");
        html.append(name);
        html.append("\">\n</a>");
        proof {
            assert(ord@[k as int] < nv.len());
            assert(nv[ord@[k as int] as int] == name@);
            assert(parts[k as int] == image_link(name@));
            lemma_concat_step(parts, k as int);
        }
        k = k + 1;
    }
    html.append("</div>\n");
    proof {
        assert(parts.take(ord@.len() as int) =~= parts);
        lemma_occurs_in(head, concat(parts), "</div>\n"@);
        assert forall|i: usize|
            #![trigger image_names@[i as int]]
            i < image_names@.len() implies occurs(html@, "src=\"images/"@ + image_names@[i as int]@ + "\""@)
                && occurs(html@, "href=\"images/"@ + image_names@[i as int]@ + "\""@) by {
            assert(nv[i as int] == image_names@[i as int]@);
            lemma_gallery_links_every_image(nv, ord@, i);
            lemma_occurs_trans(html@, concat(parts), "src=\"images/"@ + nv[i as int] + "\""@);
            lemma_occurs_trans(html@, concat(parts), "href=\"images/"@ + nv[i as int] + "\""@);
        }
    }
    html
}

/// The link to one image from a tag page: the image's path, relative to
/// the site root, and its file name.
pub open spec fn tag_image_link(path: Seq<char>, name: Seq<char>) -> Seq<char> {
    "<a href=\"../"@ + path + "\" target=\"_blank\">\n <img src=\"../"@ + path + "\" alt=\""@ + name
        + "\">\n</a>"@
}

/// A tag-page image link points at the image's path: its `href` and `src`
/// are `../` followed by the path unchanged, and its `alt` text is the file
/// name.
pub proof fn lemma_tag_image_link_targets(path: Seq<char>, name: Seq<char>)
    ensures
        occurs(tag_image_link(path, name), "href=\"../"@ + path + "\""@),
        occurs(tag_image_link(path, name), "src=\"../"@ + path + "\""@),
        occurs(tag_image_link(path, name), "alt=\""@ + name + "\""@),
{
    reveal_strlit("<a href=\"../");
    reveal_strlit("\" target=\"_blank\">\n <img src=\"../");
    reveal_strlit("\" alt=\"");
    reveal_strlit("\">\n</a>");
    reveal_strlit("href=\"../");
    reveal_strlit("src=\"../");
    reveal_strlit("alt=\"");
    reveal_strlit("\"");
    reveal_strlit("<a ");
    reveal_strlit(" target=\"_blank\">\n <img src=\"../");
    reveal_strlit("\" target=\"_blank\">\n <img ");
    reveal_strlit(" alt=\"");
    reveal_strlit("\" ");
    reveal_strlit(">\n</a>");
    let l = tag_image_link(path, name);
    let w1 = "href=\"../"@ + path + "\""@;
    let c1 = " target=\"_blank\">\n <img src=\"../"@ + path + "\" alt=\""@ + name + "\">\n</a>"@;
    assert(l =~= "<a "@ + w1 + c1);
    lemma_occurs_in("<a "@, w1, c1);
    let w2 = "src=\"../"@ + path + "\""@;
    let a2 = "<a href=\"../"@ + path + "\" target=\"_blank\">\n <img "@;
    let c2 = " alt=\""@ + name + "\">\n</a>"@;
    assert(l =~= a2 + w2 + c2);
    lemma_occurs_in(a2, w2, c2);
    let w3 = "alt=\""@ + name + "\""@;
    let a3 = "<a href=\"../"@ + path + "\" target=\"_blank\">\n <img src=\"../"@ + path + "\" "@;
    let c3 = ">\n</a>"@;
    assert(l =~= a3 + w3 + c3);
    lemma_occurs_in(a3, w3, c3);
}

/// The links to the images from a tag page, in the order of their names.
pub open spec fn tag_image_links(names: Seq<Seq<char>>, paths: Seq<Seq<char>>) -> Seq<Seq<char>> {
    Seq::new(
        names.len(),
        |k: int| tag_image_link(paths[name_order(names)[k] as int], names[name_order(names)[k] as int]),
    )
}

/// Every image of an entry gets a link on the tag page, pointing at its own
/// path (`../` and the path unchanged) with the file name as `alt`.
pub proof fn lemma_tag_gallery_links_every_image(names: Seq<Seq<char>>, paths: Seq<Seq<char>>, ord: Seq<usize>, i: usize)
    requires
        is_name_order(names, ord),
        paths.len() == names.len(),
        i < names.len(),
    ensures
        occurs(concat(tag_image_links(names, paths)), "href=\"../"@ + paths[i as int] + "\""@),
        occurs(concat(tag_image_links(names, paths)), "src=\"../"@ + paths[i as int] + "\""@),
        occurs(concat(tag_image_links(names, paths)), "alt=\""@ + names[i as int] + "\""@),
{
    lemma_name_order_is(names, ord);
    let k = lemma_listed_at(names, ord, i);
    let parts = tag_image_links(names, paths);
    assert(parts[k] == tag_image_link(paths[i as int], names[i as int]));
    lemma_concat_has_part(parts, k);
    lemma_tag_image_link_targets(paths[i as int], names[i as int]);
    lemma_occurs_trans(concat(parts), parts[k], "href=\"../"@ + paths[i as int] + "\""@);
    lemma_occurs_trans(concat(parts), parts[k], "src=\"../"@ + paths[i as int] + "\""@);
    lemma_occurs_trans(concat(parts), parts[k], "alt=\""@ + names[i as int] + "\""@);
}

/// The links of one entry on a tag page: one to each image, sorted by file
/// name. `image_paths[i]` is the path of the image named `image_names[i]`.
pub fn generate_gallery_content_tags(image_names: &Vec<String>, image_paths: &Vec<String>) -> (html: String)
    requires
        image_paths@.len() == image_names@.len(),
    ensures
        html@ == concat(tag_image_links(views(image_names@), views(image_paths@))),
        forall|i: usize|
            #![trigger image_paths@[i as int]]
            i < image_paths@.len() ==> occurs(html@, "src=\"../"@ + image_paths@[i as int]@ + "\""@)
                && occurs(html@, "href=\"../"@ + image_paths@[i as int]@ + "\""@),
{
    let ghost nv = views(image_names@);
    let ghost pv = views(image_paths@);
    let ord = order_by_name(image_names);
    let ghost parts = tag_image_links(nv, pv);
    let mut html = String::new();
    let mut k: usize = 0;
    proof {
        assert(parts.take(0) =~= Seq::<Seq<char>>::empty());
    }
    while k < ord.len()
        invariant
            nv == views(image_names@),
            pv == views(image_paths@),
            pv.len() == nv.len(),
            ord@ == name_order(nv),
            ord@.len() == nv.len(),
            forall|j: int| 0 <= j < ord@.len() ==> #[trigger] ord@[j] < nv.len(),
            parts == tag_image_links(nv, pv),
            k <= ord@.len(),
            html@ == concat(parts.take(k as int)),
        decreases ord@.len() - k,
    {
        let name = image_names[ord[k]].as_str();
        let path = image_paths[ord[k]].as_str();
        html.append("<a href=\"../");
        html.append(path);
        html.append("\" target=\"_blank\">\n <img src=\"../");
        html.append(path);
        html.append("\" alt=\"");
        html.append(name);
        html.append("\">\n</a>");
        proof {
            assert(ord@[k as int] < nv.len());
            assert(nv[ord@[k as int] as int] == name@);
            assert(pv[ord@[k as int] as int] == path@);
            assert(parts[k as int] == tag_image_link(path@, name@));
            lemma_concat_step(parts, k as int);
        }
        k = k + 1;
    }
    proof {
        assert(parts.take(ord@.len() as int) =~= parts);
        assert forall|i: usize|
            #![trigger image_paths@[i as int]]
            i < image_paths@.len() implies occurs(html@, "src=\"../"@ + image_paths@[i as int]@ + "\""@)
                && occurs(html@, "href=\"../"@ + image_paths@[i as int]@ + "\""@) by {
            assert(pv[i as int] == image_paths@[i as int]@);
            lemma_tag_gallery_links_every_image(nv, pv, ord@, i);
        }
    }
    html
}

/// The strings joined end to end.
pub fn concat_strings(parts: &Vec<String>) -> (r: String)
    ensures
        r@ == concat(views(parts@)),
{
    let ghost pv = views(parts@);
    let mut r = String::new();
    let mut k: usize = 0;
    proof {
        assert(pv.take(0) =~= Seq::<Seq<char>>::empty());
    }
    while k < parts.len()
        invariant
            pv == views(parts@),
            k <= parts@.len(),
            r@ == concat(pv.take(k as int)),
        decreases parts@.len() - k,
    {
        r.append(parts[k].as_str());
        proof {
            lemma_concat_step(pv, k as int);
        }
        k = k + 1;
    }
    proof {
        assert(pv.take(parts@.len() as int) =~= pv);
    }
    r
}

/// The content of a tag page: the galleries of its entries, one after the
/// other, in one gallery block.
pub open spec fn tag_content(entry_links: Seq<Seq<char>>) -> Seq<char> {
    "<div class=\"gallery\">\n"@ + concat(entry_links) + "</div>\n"@
}

/// The index page of a tag: the template with the tag as title and the
/// links of the entries that carry it as content.
pub fn generate_tag_page(base_html: &str, tag: &str, entry_links: &Vec<String>) -> (html: String)
    ensures
        html@ == page(base_html@, tag_content(views(entry_links@)), ""@, tag@),
{
    proof {
        reveal_strlit("");
        assert(""@ =~= Seq::<char>::empty());
    }
    let mut content = String::from_str("<div class=\"gallery\">\n");
    let links = concat_strings(entry_links);
    content.append(links.as_str());
    content.append("</div>\n");
    let map = page_map(content, String::new(), String::from_str(tag));
    replace_placeholders(base_html, &map)
}

/// The page of an entry: its `content.html` with the gallery as content,
/// set in the template with the entry's name as title.
pub fn generate_entry_page(base_html: &str, content_html: &str, title: &str, gallery: &str) -> (html: String)
    ensures
        html@ == page(base_html@, page(content_html@, gallery@, ""@, ""@), ""@, title@),
{
    proof {
        reveal_strlit("");
        assert(""@ =~= Seq::<char>::empty());
    }
    let inner_map = page_map(String::from_str(gallery), String::new(), String::new());
    let inner = replace_placeholders(content_html, &inner_map);
    let map = page_map(inner, String::new(), String::from_str(title));
    replace_placeholders(base_html, &map)
}

/// The link to a tag's index page in the tag cloud.
pub open spec fn tag_link(tag: Seq<char>) -> Seq<char> {
    "<a href=\""@ + tag + "/index.html\">"@ + tag + "</a> "@
}

/// A tag link points at the tag's own page, `<tag>/index.html`, with the tag
/// unchanged, and shows the tag as its text.
pub proof fn lemma_tag_link_targets(tag: Seq<char>)
    ensures
        occurs(tag_link(tag), "href=\""@ + tag + "/index.html\""@),
        occurs(tag_link(tag), ">"@ + tag + "</a>"@),
{
    reveal_strlit("<a href=\"");
    reveal_strlit("/index.html\">");
    reveal_strlit("</a> ");
    reveal_strlit("href=\"");
    reveal_strlit("/index.html\"");
    reveal_strlit("<a ");
    reveal_strlit(">");
    reveal_strlit("</a>");
    reveal_strlit(" ");
    let l = tag_link(tag);
    let w1 = "href=\""@ + tag + "/index.html\""@;
    let c1 = ">"@ + tag + "</a> "@;
    assert(l =~= "<a "@ + w1 + c1);
    lemma_occurs_in("<a "@, w1, c1);
    let w2 = ">"@ + tag + "</a>"@;
    let a2 = "<a href=\""@ + tag + "/index.html\""@;
    assert(l =~= a2 + w2 + " "@);
    lemma_occurs_in(a2, w2, " "@);
}

/// The tag cloud: a link to each tag's page, in the order given.
pub open spec fn nav_cloud(tags: Seq<Seq<char>>) -> Seq<char> {
    concat(Seq::new(tags.len(), |k: int| tag_link(tags[k])))
}

/// The tag cloud links every tag to its own page, `<tag>/index.html`, and
/// shows the tag.
pub proof fn lemma_nav_cloud_links_every_tag(tags: Seq<Seq<char>>, k: int)
    requires
        0 <= k < tags.len(),
    ensures
        occurs(nav_cloud(tags), "href=\""@ + tags[k] + "/index.html\""@),
        occurs(nav_cloud(tags), ">"@ + tags[k] + "</a>"@),
{
    let parts = Seq::new(tags.len(), |j: int| tag_link(tags[j]));
    assert(parts[k] == tag_link(tags[k]));
    lemma_concat_has_part(parts, k);
    lemma_tag_link_targets(tags[k]);
    lemma_occurs_trans(concat(parts), parts[k], "href=\""@ + tags[k] + "/index.html\""@);
    lemma_occurs_trans(concat(parts), parts[k], ">"@ + tags[k] + "</a>"@);
}

/// Builds the tag cloud.
pub fn generate_nav_cloud(tags: &Vec<String>) -> (html: String)
    ensures
        html@ == nav_cloud(views(tags@)),
        forall|k: int|
            0 <= k < tags@.len() ==> occurs(html@, "href=\""@ + (#[trigger] tags@[k])@ + "/index.html\""@)
                && occurs(html@, ">"@ + tags@[k]@ + "</a>"@),
{
    let ghost tv = views(tags@);
    let ghost parts = Seq::new(tv.len(), |k: int| tag_link(tv[k]));
    let mut html = String::new();
    let mut k: usize = 0;
    proof {
        assert(parts.take(0) =~= Seq::<Seq<char>>::empty());
    }
    while k < tags.len()
        invariant
            tv == views(tags@),
            parts == Seq::new(tv.len(), |k: int| tag_link(tv[k])),
            k <= tags@.len(),
            html@ == concat(parts.take(k as int)),
        decreases tags@.len() - k,
    {
        let tag = tags[k].as_str();
        html.append("<a href=\"");
        html.append(tag);
        html.append("/index.html\">");
        html.append(tag);
        html.append("</a> ");
        proof {
            assert(parts[k as int] == tag_link(tag@));
            lemma_concat_step(parts, k as int);
        }
        k = k + 1;
    }
    proof {
        assert(parts.take(tags@.len() as int) =~= parts);
        assert forall|k: int|
            0 <= k < tags@.len() implies occurs(html@, "href=\""@ + (#[trigger] tags@[k])@ + "/index.html\""@)
                && occurs(html@, ">"@ + tags@[k]@ + "</a>"@) by {
            assert(tv[k] == tags@[k]@);
            lemma_nav_cloud_links_every_tag(tv, k);
        }
    }
    html
}

/// The root index page: the about text with the tag cloud in place of
/// `$NAVCLOUD`, set in the template with the project name as title.
pub fn generate_root_page(base_html: &str, about_html: &str, project_name: &str, tags: &Vec<String>) -> (html: String)
    ensures
        html@ == page(
            base_html@,
            apply_all(about_html@, seq![(navcloud_key(), nav_cloud(views(tags@)))]),
            ""@,
            project_name@,
        ),
{
    proof {
        reveal_strlit("");
        assert(""@ =~= Seq::<char>::empty());
    }
    let cloud = generate_nav_cloud(tags);
    let about_map = navcloud_map(cloud);
    let about = replace_placeholders(about_html, &about_map);
    let map = page_map(about, String::new(), String::from_str(project_name));
    replace_placeholders(base_html, &map)
}

/// The link to an entry on the entries index page.
pub open spec fn entry_link(title: Seq<char>) -> Seq<char> {
    "<a href=\""@ + title + "/index.html\">"@ + title + "</a><br>"@
}

/// An entry link points at the entry's own page, `<title>/index.html`, with
/// the title unchanged, and shows the title as its text.
pub proof fn lemma_entry_link_targets(title: Seq<char>)
    ensures
        occurs(entry_link(title), "href=\""@ + title + "/index.html\""@),
        occurs(entry_link(title), ">"@ + title + "</a>"@),
{
    reveal_strlit("<a href=\"");
    reveal_strlit("/index.html\">");
    reveal_strlit("</a><br>");
    reveal_strlit("href=\"");
    reveal_strlit("/index.html\"");
    reveal_strlit("<a ");
    reveal_strlit(">");
    reveal_strlit("</a>");
    reveal_strlit("<br>");
    let l = entry_link(title);
    let w1 = "href=\""@ + title + "/index.html\""@;
    let c1 = ">"@ + title + "</a><br>"@;
    assert(l =~= "<a "@ + w1 + c1);
    lemma_occurs_in("<a "@, w1, c1);
    let w2 = ">"@ + title + "</a>"@;
    let a2 = "<a href=\""@ + title + "/index.html\""@;
    assert(l =~= a2 + w2 + "<br>"@);
    lemma_occurs_in(a2, w2, "<br>"@);
}

/// The links to the entries, in the order of their directory names.
pub open spec fn entry_links(names: Seq<Seq<char>>, titles: Seq<Seq<char>>) -> Seq<Seq<char>> {
    Seq::new(names.len(), |k: int| entry_link(titles[name_order(names)[k] as int]))
}

/// The entries index links every entry to its own page,
/// `<title>/index.html`, and shows the title.
pub proof fn lemma_entries_index_links_every_entry(names: Seq<Seq<char>>, titles: Seq<Seq<char>>, ord: Seq<usize>, i: usize)
    requires
        is_name_order(names, ord),
        titles.len() == names.len(),
        i < names.len(),
    ensures
        occurs(concat(entry_links(names, titles)), "href=\""@ + titles[i as int] + "/index.html\""@),
        occurs(concat(entry_links(names, titles)), ">"@ + titles[i as int] + "</a>"@),
{
    lemma_name_order_is(names, ord);
    let k = lemma_listed_at(names, ord, i);
    let parts = entry_links(names, titles);
    assert(parts[k] == entry_link(titles[i as int]));
    lemma_concat_has_part(parts, k);
    lemma_entry_link_targets(titles[i as int]);
    lemma_occurs_trans(concat(parts), parts[k], "href=\""@ + titles[i as int] + "/index.html\""@);
    lemma_occurs_trans(concat(parts), parts[k], ">"@ + titles[i as int] + "</a>"@);
}

/// The entries index page: a link to each entry, sorted by directory name,
/// in the template with the title "Entries". `titles[i]` is the title of the
/// entry whose directory is named `names[i]`.
pub fn generate_entries_index(base_html: &str, names: &Vec<String>, titles: &Vec<String>) -> (html: String)
    requires
        titles@.len() == names@.len(),
    ensures
        html@ == page(base_html@, concat(entry_links(views(names@), views(titles@))), ""@, "Entries"@),
{
    proof {
        reveal_strlit("");
        assert(""@ =~= Seq::<char>::empty());
    }
    let ghost nv = views(names@);
    let ghost tv = views(titles@);
    let ord = order_by_name(names);
    let ghost parts = entry_links(nv, tv);
    let mut content = String::new();
    let mut k: usize = 0;
    proof {
        assert(parts.take(0) =~= Seq::<Seq<char>>::empty());
    }
    while k < ord.len()
        invariant
            nv == views(names@),
            tv == views(titles@),
            tv.len() == nv.len(),
            ord@ == name_order(nv),
            ord@.len() == nv.len(),
            forall|j: int| 0 <= j < ord@.len() ==> #[trigger] ord@[j] < nv.len(),
            parts == entry_links(nv, tv),
            k <= ord@.len(),
            content@ == concat(parts.take(k as int)),
        decreases ord@.len() - k,
    {
        let title = titles[ord[k]].as_str();
        content.append("<a href=\"");
        content.append(title);
        content.append("/index.html\">");
        content.append(title);
        content.append("</a><br>");
        proof {
            assert(ord@[k as int] < nv.len());
            assert(tv[ord@[k as int] as int] == title@);
            assert(parts[k as int] == entry_link(title@));
            lemma_concat_step(parts, k as int);
        }
        k = k + 1;
    }
    proof {
        assert(parts.take(ord@.len() as int) =~= parts);
    }
    let map = page_map(content, String::new(), String::from_str("Entries"));
    replace_placeholders(base_html, &map)
}

} // verus!
