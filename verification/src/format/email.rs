//! E-mail messages (`.eml`): headers, body and attachments.
use vstd::prelude::*;
use mail_parser::MimeHeaders;
use crate::format::archive::opt_string;
use crate::model::{block_views, plain_block, Block, BlockView, ElementType};
use crate::strings::{
    chars_of, decimal, is_white_space, is_whitespace, push_char, string_of, trim_chars, trim_spec,
    usize_to_decimal,
};
use crate::Error;

verus! {

/// E-mail messages.
pub struct EmailParser;

/// A mailbox: a display name and an address, each optional.
pub struct EmailAddr {
    pub name: Option<String>,
    pub address: Option<String>,
}

/// A named group of mailboxes.
pub struct EmailGroup {
    pub name: Option<String>,
    pub addresses: Vec<EmailAddr>,
}

/// An address header: a list of mailboxes or of groups.
pub enum EmailAddress {
    List(Vec<EmailAddr>),
    Group(Vec<EmailGroup>),
}

/// What the library reads of a message: subject, sender, recipients, date,
/// the first text and HTML bodies, and per attachment its name and size
/// (`None` for one that cannot be read).
pub struct EmailParts {
    pub subject: Option<String>,
    pub from: Option<EmailAddress>,
    pub to: Option<EmailAddress>,
    pub date: Option<String>,
    pub text: Option<String>,
    pub html: Option<String>,
    pub attachments: Vec<Option<(Option<String>, usize)>>,
}

/// A mailbox as plain values.
pub type AddrView = (Option<Seq<char>>, Option<Seq<char>>);

/// An address header as plain values.
pub enum EmailAddressView {
    List(Seq<AddrView>),
    Group(Seq<(Option<Seq<char>>, Seq<AddrView>)>),
}

/// A message as plain values.
pub struct EmailView {
    pub subject: Option<Seq<char>>,
    pub from: Option<EmailAddressView>,
    pub to: Option<EmailAddressView>,
    pub date: Option<Seq<char>>,
    pub text: Option<Seq<char>>,
    pub html: Option<Seq<char>>,
    pub attachments: Seq<Option<(Option<Seq<char>>, usize)>>,
}

/// A mailbox's view.
pub open spec fn addr_view(a: EmailAddr) -> AddrView {
    (opt_string(a.name), opt_string(a.address))
}

/// An address header's view.
pub open spec fn address_view(a: EmailAddress) -> EmailAddressView {
    match a {
        EmailAddress::List(l) => EmailAddressView::List(l@.map_values(|x: EmailAddr| addr_view(x))),
        EmailAddress::Group(g) => EmailAddressView::Group(
            g@.map_values(|x: EmailGroup| (opt_string(x.name), x.addresses@.map_values(|y: EmailAddr| addr_view(y)))),
        ),
    }
}

/// An optional address header's view.
pub open spec fn opt_address_view(a: Option<EmailAddress>) -> Option<EmailAddressView> {
    match a {
        Some(x) => Some(address_view(x)),
        None => None,
    }
}

/// An attachment's view.
pub open spec fn attachment_view(a: Option<(Option<String>, usize)>) -> Option<(Option<Seq<char>>, usize)> {
    match a {
        Some(p) => Some((opt_string(p.0), p.1)),
        None => None,
    }
}

/// A message's view.
pub open spec fn email_view(p: EmailParts) -> EmailView {
    EmailView {
        subject: opt_string(p.subject),
        from: opt_address_view(p.from),
        to: opt_address_view(p.to),
        date: opt_string(p.date),
        text: opt_string(p.text),
        html: opt_string(p.html),
        attachments: p.attachments@.map_values(|a: Option<(Option<String>, usize)>| attachment_view(a)),
    }
}

/// What `mail_parser` reads of a message's bytes, or `None` when it cannot parse them.
pub uninterp spec fn parsed_email(raw: Seq<u8>) -> Option<EmailView>;

/// The address header type of `mail_parser`.
#[verifier::external_type_specification]
#[verifier::external_body]
pub struct ExMailAddress<'x>(mail_parser::Address<'x>);

/// An address header of `mail_parser`, in the library's terms.
#[verifier::external_body]
fn convert_address(a: &mail_parser::Address) -> EmailAddress {
    let addr = |x: &mail_parser::Addr| EmailAddr { name: x.name.as_deref().map(String::from), address: x.address.as_deref().map(String::from) };
    match a {
        mail_parser::Address::List(l) => EmailAddress::List(l.iter().map(addr).collect()),
        mail_parser::Address::Group(g) => EmailAddress::Group(
            g.iter().map(|x| EmailGroup { name: x.name.as_deref().map(String::from), addresses: x.addresses.iter().map(addr).collect() }).collect(),
        ),
    }
}

/// Parses a message with `mail_parser::MessageParser::default()` and reads its
/// subject, `From`, `To`, date (as `mail_parser` displays it), first text and HTML
/// bodies, and its attachments' names and sizes.
#[verifier::external_body]
fn parse_email(raw: &[u8]) -> (r: Option<EmailParts>)
    ensures
        match r {
            Some(p) => parsed_email(raw@) == Some(email_view(p)),
            None => parsed_email(raw@) is None,
        },
{
    let m = mail_parser::MessageParser::default().parse(raw)?;
    Some(EmailParts {
        subject: m.subject().map(String::from),
        from: m.from().map(convert_address),
        to: m.to().map(convert_address),
        date: m.date().map(|d| d.to_string()),
        text: m.body_text(0).map(String::from),
        html: m.body_html(0).map(String::from),
        attachments: (0..m.attachment_count()).map(|i| m.attachment(i as u32).map(|p| (p.attachment_name().map(String::from), p.contents().len()))).collect(),
    })
}


/// Texts joined with a separator.
pub open spec fn join_with(ts: Seq<Seq<char>>, sep: Seq<char>) -> Seq<char>
    decreases ts.len(),
{
    if ts.len() == 0 {
        seq![]
    } else if ts.len() == 1 {
        ts[0]
    } else {
        join_with(ts.drop_last(), sep) + sep + ts.last()
    }
}

/// How a mailbox is written: `name <address>`, or whichever of the two it has.
pub open spec fn addr_text(a: AddrView) -> Seq<char> {
    match a.0 {
        Some(n) => match a.1 {
            Some(e) => n + " <"@ + e + ">"@,
            None => n,
        },
        None => match a.1 {
            Some(e) => e,
            None => seq![],
        },
    }
}

/// How a group is written: its mailboxes joined with `, `, after `name: ` when named.
pub open spec fn group_text(g: (Option<Seq<char>>, Seq<AddrView>)) -> Seq<char> {
    let a = join_with(g.1.map_values(|x: AddrView| addr_text(x)), ", "@);
    match g.0 {
        Some(n) => n + ": "@ + a,
        None => a,
    }
}

/// How an address header is written: mailboxes joined with `, `, groups with `; `.
pub open spec fn address_text(a: EmailAddressView) -> Seq<char> {
    match a {
        EmailAddressView::List(l) => join_with(l.map_values(|x: AddrView| addr_text(x)), ", "@),
        EmailAddressView::Group(g) => join_with(g.map_values(|x: (Option<Seq<char>>, Seq<AddrView>)| group_text(x)), "; "@),
    }
}

/// Joins strings with a separator.
pub(crate) fn join_strings(ts: &Vec<String>, sep: &str) -> (s: String)
    ensures
        s@ == join_with(ts.deep_view(), sep@),
{
    let mut s = String::new();
    let mut i: usize = 0;
    while i < ts.len()
        invariant
            i <= ts@.len(),
            s@ == join_with(ts.deep_view().take(i as int), sep@),
        decreases ts@.len() - i,
    {
        assert(ts.deep_view().take(i + 1).drop_last() =~= ts.deep_view().take(i as int));
        if i > 0 {
            s.append(sep);
        }
        s.append(ts[i].as_str());
        i += 1;
    }
    assert(ts.deep_view().take(i as int) =~= ts.deep_view());
    s
}

/// Writes a mailbox.
pub fn format_single_addr(a: &EmailAddr) -> (s: String)
    ensures
        s@ == addr_text(addr_view(*a)),
{
    match &a.name {
        Some(n) => match &a.address {
            Some(e) => n.clone().concat(" <").concat(e.as_str()).concat(">"),
            None => n.clone(),
        },
        None => match &a.address {
            Some(e) => e.clone(),
            None => String::new(),
        },
    }
}

/// Writes the mailboxes of a list.
fn format_addrs(l: &Vec<EmailAddr>) -> (v: Vec<String>)
    ensures
        v.deep_view() == l@.map_values(|x: EmailAddr| addr_text(addr_view(x))),
{
    let mut v: Vec<String> = Vec::new();
    let mut i: usize = 0;
    while i < l.len()
        invariant
            i <= l@.len(),
            v.deep_view() == l@.take(i as int).map_values(|x: EmailAddr| addr_text(addr_view(x))),
        decreases l@.len() - i,
    {
        let ghost before = v.deep_view();
        v.push(format_single_addr(&l[i]));
        assert(v.deep_view() =~= before.push(addr_text(addr_view(l@[i as int]))));
        i += 1;
        assert(l@.take(i as int).map_values(|x: EmailAddr| addr_text(addr_view(x))) =~= l@.take(i - 1).map_values(
            |x: EmailAddr| addr_text(addr_view(x)),
        ).push(addr_text(addr_view(l@[i - 1]))));
    }
    assert(l@.take(l@.len() as int) =~= l@);
    v
}

/// Writes a group.
pub fn format_group(g: &EmailGroup) -> (s: String)
    ensures
        s@ == group_text((opt_string(g.name), g.addresses@.map_values(|y: EmailAddr| addr_view(y)))),
{
    let names = format_addrs(&g.addresses);
    assert(g.addresses@.map_values(|x: EmailAddr| addr_text(addr_view(x))) =~= g.addresses@.map_values(
        |y: EmailAddr| addr_view(y),
    ).map_values(|x: AddrView| addr_text(x)));
    let a = join_strings(&names, ", ");
    match &g.name {
        Some(n) => n.clone().concat(": ").concat(a.as_str()),
        None => a,
    }
}

/// Writes an address header.
pub fn format_address(a: &EmailAddress) -> (s: String)
    ensures
        s@ == address_text(address_view(*a)),
{
    match a {
        EmailAddress::List(l) => {
            let names = format_addrs(l);
            assert(l@.map_values(|x: EmailAddr| addr_text(addr_view(x))) =~= l@.map_values(|x: EmailAddr| addr_view(x)).map_values(
                |x: AddrView| addr_text(x),
            ));
            join_strings(&names, ", ")
        },
        EmailAddress::Group(gs) => {
            let mut v: Vec<String> = Vec::new();
            let ghost gv = gs@.map_values(|x: EmailGroup| (opt_string(x.name), x.addresses@.map_values(|y: EmailAddr| addr_view(y))));
            let mut i: usize = 0;
            while i < gs.len()
                invariant
                    i <= gs@.len(),
                    gv == gs@.map_values(|x: EmailGroup| (opt_string(x.name), x.addresses@.map_values(|y: EmailAddr| addr_view(y)))),
                    v.deep_view() == gv.take(i as int).map_values(|x: (Option<Seq<char>>, Seq<AddrView>)| group_text(x)),
                decreases gs@.len() - i,
            {
                let ghost before = v.deep_view();
                v.push(format_group(&gs[i]));
                assert(v.deep_view() =~= before.push(group_text(gv[i as int])));
                i += 1;
                assert(gv.take(i as int).map_values(|x: (Option<Seq<char>>, Seq<AddrView>)| group_text(x)) =~= gv.take(
                    i - 1,
                ).map_values(|x: (Option<Seq<char>>, Seq<AddrView>)| group_text(x)).push(group_text(gv[i - 1])));
            }
            assert(gv.take(gs@.len() as int) =~= gv);
            join_strings(&v, "; ")
        },
    }
}

/// The tag stripper's state after characters: its output, whether a tag is open,
/// whether the output ends with a space it wrote.
pub open spec fn strip_state(s: Seq<char>) -> (Seq<char>, bool, bool)
    decreases s.len(),
{
    if s.len() == 0 {
        (seq![], false, false)
    } else {
        let (out, in_tag, last_space) = strip_state(s.drop_last());
        let ch = s.last();
        if ch == '<' {
            (out, true, last_space)
        } else if ch == '>' {
            if !last_space { (out.push(' '), false, true) } else { (out, false, last_space) }
        } else if !in_tag {
            if is_white_space(ch) {
                if !last_space { (out.push(' '), in_tag, true) } else { (out, in_tag, last_space) }
            } else {
                (out.push(ch), in_tag, false)
            }
        } else {
            (out, in_tag, last_space)
        }
    }
}

/// HTML text without its tags: each tag and each run of white space becomes one
/// space, and the result is trimmed.
pub open spec fn stripped_html(s: Seq<char>) -> Seq<char> {
    trim_spec(strip_state(s).0)
}

/// Strips the tags of an HTML body.
pub fn strip_html_tags(html: &str) -> (s: String)
    ensures
        s@ == stripped_html(html@),
{
    let cs = chars_of(html);
    let mut out: Vec<char> = Vec::new();
    let mut in_tag = false;
    let mut last_space = false;
    let mut i: usize = 0;
    while i < cs.len()
        invariant
            i <= cs@.len(),
            cs@ == html@,
            (out@, in_tag, last_space) == strip_state(cs@.take(i as int)),
        decreases cs@.len() - i,
    {
        assert(cs@.take(i + 1).drop_last() =~= cs@.take(i as int));
        let ch = cs[i];
        if ch == '<' {
            in_tag = true;
        } else if ch == '>' {
            in_tag = false;
            if !last_space {
                out.push(' ');
                last_space = true;
            }
        } else if !in_tag {
            if is_whitespace(ch) {
                if !last_space {
                    out.push(' ');
                    last_space = true;
                }
            } else {
                out.push(ch);
                last_space = false;
            }
        }
        i += 1;
    }
    assert(cs@.take(i as int) =~= html@);
    string_of(trim_chars(out.as_slice()).as_slice())
}


/// The descriptions of the readable attachments: `name (size bytes)`, `unnamed`
/// for one without a name.
pub open spec fn attachment_texts(a: Seq<Option<(Option<Seq<char>>, usize)>>) -> Seq<Seq<char>>
    decreases a.len(),
{
    if a.len() == 0 {
        seq![]
    } else {
        let before = attachment_texts(a.drop_last());
        match a.last() {
            Some(p) => before.push(
                match p.0 {
                    Some(n) => n,
                    None => "unnamed"@,
                } + " ("@ + decimal(p.1 as nat) + " bytes)"@,
            ),
            None => before,
        }
    }
}

/// The blocks of a message: the subject as title; `From`, `To` and `Date` headers;
/// the body (the text body, else the HTML body without tags), trimmed; the
/// attachments; or "Empty email" when there is none of these.
pub open spec fn email_blocks(v: EmailView) -> Seq<BlockView> {
    let b1: Seq<BlockView> = match v.subject {
        Some(s) => if s.len() > 0 { seq![plain_block(ElementType::Title, s, 1)] } else { seq![] },
        None => seq![],
    };
    let b2 = match v.from {
        Some(a) => if address_text(a).len() > 0 {
            b1.push(plain_block(ElementType::EmailHeader, "From: "@ + address_text(a), 1))
        } else {
            b1
        },
        None => b1,
    };
    let b3 = match v.to {
        Some(a) => if address_text(a).len() > 0 {
            b2.push(plain_block(ElementType::EmailHeader, "To: "@ + address_text(a), 1))
        } else {
            b2
        },
        None => b2,
    };
    let b4 = match v.date {
        Some(d) => b3.push(plain_block(ElementType::EmailHeader, "Date: "@ + d, 1)),
        None => b3,
    };
    let body: Option<Seq<char>> = match v.text {
        Some(t) => Some(t),
        None => match v.html {
            Some(h) => Some(stripped_html(h)),
            None => None,
        },
    };
    let b5 = match body {
        Some(t) => if trim_spec(t).len() > 0 { b4.push(plain_block(ElementType::EmailBody, trim_spec(t), 1)) } else { b4 },
        None => b4,
    };
    let names = attachment_texts(v.attachments);
    let b6 = if v.attachments.len() > 0 && names.len() > 0 {
        b5.push(plain_block(
            ElementType::NarrativeText,
            "Attachments ("@ + decimal(v.attachments.len()) + "): "@ + join_with(names, ", "@),
            1,
        ))
    } else {
        b5
    };
    if b6.len() == 0 { seq![plain_block(ElementType::NarrativeText, "Empty email"@, 1)] } else { b6 }
}

/// What reading a message gives.
pub open spec fn email_result(raw: Seq<u8>) -> Option<Seq<BlockView>> {
    match parsed_email(raw) {
        Some(v) => Some(email_blocks(v)),
        None => None,
    }
}

/// Pushes a block and keeps track of the views.
fn push_block(v: &mut Vec<Block>, b: Block)
    ensures
        block_views(final(v)@) == block_views(old(v)@).push(b@),
{
    let ghost before = block_views(v@);
    v.push(b);
    assert(block_views(v@) =~= before.push(b@));
}

/// The blocks of a message read by `mail_parser`.
pub fn email_message_blocks(p: &EmailParts) -> (blocks: Vec<Block>)
    ensures
        block_views(blocks@) == email_blocks(email_view(*p)),
{
    let ghost v = email_view(*p);
    let mut blocks: Vec<Block> = Vec::new();
    assert(block_views(blocks@) =~= seq![]);
    if let Some(s) = &p.subject {
        if !s.as_str().is_empty() {
            push_block(&mut blocks, Block::on_page(ElementType::Title, s.clone(), 1));
        }
    }
    if let Some(a) = &p.from {
        let t = format_address(a);
        if !t.as_str().is_empty() {
            push_block(&mut blocks, Block::on_page(ElementType::EmailHeader, String::from_str("From: ").concat(t.as_str()), 1));
        }
    }
    if let Some(a) = &p.to {
        let t = format_address(a);
        if !t.as_str().is_empty() {
            push_block(&mut blocks, Block::on_page(ElementType::EmailHeader, String::from_str("To: ").concat(t.as_str()), 1));
        }
    }
    if let Some(d) = &p.date {
        push_block(&mut blocks, Block::on_page(ElementType::EmailHeader, String::from_str("Date: ").concat(d.as_str()), 1));
    }
    let body: Option<String> = match &p.text {
        Some(t) => Some(t.clone()),
        None => match &p.html {
            Some(h) => Some(strip_html_tags(h.as_str())),
            None => None,
        },
    };
    if let Some(t) = &body {
        let tr = trim_chars(chars_of(t.as_str()).as_slice());
        if tr.len() > 0 {
            push_block(&mut blocks, Block::on_page(ElementType::EmailBody, string_of(tr.as_slice()), 1));
        }
    }
    let count = p.attachments.len();
    if count > 0 {
        let mut names: Vec<String> = Vec::new();
        let ghost av = v.attachments;
        let mut i: usize = 0;
        while i < count
            invariant
                i <= count,
                count == p.attachments@.len(),
                av == p.attachments@.map_values(|a: Option<(Option<String>, usize)>| attachment_view(a)),
                names.deep_view() == attachment_texts(av.take(i as int)),
            decreases count - i,
        {
            assert(av.take(i + 1).drop_last() =~= av.take(i as int));
            match &p.attachments[i] {
                Some((name, size)) => {
                    let n = match name {
                        Some(n) => n.clone(),
                        None => String::from_str("unnamed"),
                    };
                    let d = n.concat(" (").concat(usize_to_decimal(*size).as_str()).concat(" bytes)");
                    let ghost before = names.deep_view();
                    let ghost dv = d@;
                    names.push(d);
                    assert(names.deep_view() =~= before.push(dv));
                },
                None => {},
            }
            i += 1;
        }
        assert(av.take(count as int) =~= av);
        if names.len() > 0 {
            let text = String::from_str("Attachments (")
                .concat(usize_to_decimal(count).as_str())
                .concat("): ")
                .concat(join_strings(&names, ", ").as_str());
            push_block(&mut blocks, Block::on_page(ElementType::NarrativeText, text, 1));
        }
    }
    if blocks.len() == 0 {
        push_block(&mut blocks, Block::on_page(ElementType::NarrativeText, String::from_str("Empty email"), 1));
    }
    blocks
}

impl EmailParser {
    /// The blocks of a message given its bytes.
    pub fn parse_bytes(&self, raw: &[u8]) -> (r: Result<Vec<Block>, Error>)
        ensures
            match email_result(raw@) {
                Some(bs) => r matches Ok(blocks) && block_views(blocks@) == bs,
                None => r matches Err(Error::Parse(m)) && m@ == "Failed to parse email"@,
            },
    {
        match parse_email(raw) {
            Some(p) => Ok(email_message_blocks(&p)),
            None => Err(Error::Parse(String::from_str("Failed to parse email"))),
        }
    }
}

} // verus!
