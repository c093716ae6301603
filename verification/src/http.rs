//! Requests, the failures worth another try, and lists that come in pages.
use crate::json::Json;
use crate::text::{
    decimal, decimal_value, from_chars, law_decimal_reads_back, to_chars, to_decimal,
};
use vstd::prelude::*;

verus! {

/// The HTTP methods the tool uses.
#[derive(Debug, Clone, Copy, PartialEq, Eq, Structural)]
pub enum Method {
    Get,
    Post,
    Patch,
    Delete,
}

/// A request to be sent.
#[derive(Debug, PartialEq, Eq)]
pub struct Request {
    pub method: Method,
    pub url: String,
    pub headers: Vec<(String, String)>,
    pub query: Vec<(String, String)>,
    pub body: Option<Json>,
}

/// The texts of a list of name-value pairs.
pub open spec fn pairs(list: Seq<(String, String)>) -> Seq<(Seq<char>, Seq<char>)> {
    list.map_values(|p: (String, String)| (p.0@, p.1@))
}

/// What a request holds.
pub ghost struct RequestView {
    pub method: Method,
    pub url: Seq<char>,
    pub headers: Seq<(Seq<char>, Seq<char>)>,
    pub query: Seq<(Seq<char>, Seq<char>)>,
    pub body: Option<Json>,
}

impl View for Request {
    type V = RequestView;

    open spec fn view(&self) -> RequestView {
        RequestView {
            method: self.method,
            url: self.url@,
            headers: pairs(self.headers@),
            query: pairs(self.query@),
            body: self.body,
        }
    }
}

/// Appends copies of the pairs in `list`.
pub fn append_pairs(to: &mut Vec<(String, String)>, list: &Vec<(String, String)>)
    ensures
        pairs(final(to)@) == pairs(old(to)@) + pairs(list@),
{
    let ghost start = pairs(to@);
    let mut i: usize = 0;
    assert(pairs(list@).take(0) =~= Seq::empty());
    assert(start + pairs(list@).take(0) =~= start);
    while i < list.len()
        invariant
            i <= list@.len(),
            pairs(to@) == start + pairs(list@).take(i as int),
        decreases list@.len() - i,
    {
        let ghost now = pairs(to@);
        to.push((list[i].0.clone(), list[i].1.clone()));
        assert(pairs(to@) =~= now.push(pairs(list@)[i as int]));
        assert(pairs(list@).take(i + 1) =~= pairs(list@).take(i as int).push(pairs(list@)[i as int]));
        i = i + 1;
    }
    assert(pairs(list@).take(i as int) == pairs(list@));
}

/// One name-value pair.
pub fn pair(name: &str, value: &str) -> (r: (String, String))
    ensures
        (r.0@, r.1@) == (name@, value@),
{
    (name.to_owned(), value.to_owned())
}

/// What went wrong with a request that was sent.
#[derive(Debug, PartialEq, Eq)]
pub enum SendError {
    /// No answer came.
    Transport { timeout: bool, connect: bool, reason: String },
    /// The answer was no success: its code, the status line and the body.
    Status { code: u16, line: String, body: String },
}

/// Whether a status code stands for success.
pub open spec fn success_code(code: u16) -> bool {
    200 <= code < 300
}

/// Tests whether a status code stands for success.
pub fn is_success(code: u16) -> (r: bool)
    ensures
        r == success_code(code),
{
    200 <= code && code < 300
}

/// What an answer comes to: nothing to report, or an error with its body.
pub fn do_send(code: u16, line: String, body: String) -> (r: Result<(), SendError>)
    ensures
        r is Ok <==> success_code(code),
        r is Err ==> r->Err_0 == (SendError::Status { code, line, body }),
{
    if is_success(code) {
        Ok(())
    } else {
        Err(SendError::Status { code, line, body })
    }
}

/// How often a request that failed in passing is sent again before it is given up.
pub fn max_retries() -> (r: usize)
    ensures
        r == 4,
{
    4
}

impl SendError {
    /// Whether another try may do better: timeouts, connection errors, HTTP 5xx
    /// and 429.
    pub open spec fn transient(self) -> bool {
        match self {
            SendError::Transport { timeout, connect, .. } => timeout || connect,
            SendError::Status { code, .. } => 500 <= code < 600 || code == 429,
        }
    }

    /// Tests whether another try may do better.
    pub fn is_transient(&self) -> (r: bool)
        ensures
            r == self.transient(),
    {
        match self {
            SendError::Transport { timeout, connect, .. } => *timeout || *connect,
            SendError::Status { code, .. } => {
                500 <= *code && *code < 600 || *code == 429
            },
        }
    }

    /// The failure in words.
    pub open spec fn words(self) -> Seq<char> {
        match self {
            SendError::Transport { reason, .. } => "HTTP request failed: "@ + reason@,
            SendError::Status { line, body, .. } => "API returned HTTP "@ + line@ + ": "@ + shortened(
                body@,
                600,
            ),
        }
    }

    /// Puts the failure in words. Of a long body only the beginning is shown.
    pub fn message(&self) -> (r: String)
        ensures
            r@ == self.words(),
    {
        match self {
            SendError::Transport { reason, .. } => "HTTP request failed: ".to_owned().concat(
                reason.as_str(),
            ),
            SendError::Status { line, body, .. } => {
                let short = truncate(body.as_str(), 600);
                "API returned HTTP ".to_owned().concat(line.as_str()).concat(": ").concat(short.as_str())
            },
        }
    }
}

/// A text of at most `max` characters, or its beginning with an ellipsis.
pub open spec fn shortened(s: Seq<char>, max: nat) -> Seq<char> {
    if s.len() > max {
        s.take(max as int).push('\u{2026}')
    } else {
        s
    }
}

/// Cuts `s` after `max` characters and marks the cut with an ellipsis.
pub fn truncate(s: &str, max: usize) -> (r: String)
    ensures
        r@ == shortened(s@, max as nat),
{
    let chars = to_chars(s);
    if chars.len() > max {
        let mut t = from_chars(&chars, 0, max);
        t.push('\u{2026}');
        assert(s@.subrange(0, max as int) == s@.take(max as int));
        t
    } else {
        let t = from_chars(&chars, 0, chars.len());
        assert(s@.subrange(0, s@.len() as int) == s@);
        t
    }
}

/// A list endpoint that is read page by page.
#[derive(Debug, PartialEq, Eq)]
pub struct PageRequest {
    pub url: String,
    pub headers: Vec<(String, String)>,
    /// The name of the parameter that sets the page size.
    pub size_param: String,
    /// The parameters that follow the page size and the page number.
    pub extra: Vec<(String, String)>,
    pub page_size: usize,
    pub max_pages: usize,
}

/// What the request for a list holds.
pub ghost struct PageRequestView {
    pub url: Seq<char>,
    pub headers: Seq<(Seq<char>, Seq<char>)>,
    pub size_param: Seq<char>,
    pub extra: Seq<(Seq<char>, Seq<char>)>,
    pub page_size: nat,
    pub max_pages: nat,
}

impl View for PageRequest {
    type V = PageRequestView;

    open spec fn view(&self) -> PageRequestView {
        PageRequestView {
            url: self.url@,
            headers: pairs(self.headers@),
            size_param: self.size_param@,
            extra: pairs(self.extra@),
            page_size: self.page_size as nat,
            max_pages: self.max_pages as nat,
        }
    }
}

impl PageRequestView {
    /// The request for the page of this number.
    pub open spec fn at(self, page: nat) -> RequestView {
        RequestView {
            method: Method::Get,
            url: self.url,
            headers: self.headers,
            query: seq![(self.size_param, decimal(self.page_size)), ("page"@, decimal(page))] + self.extra,
            body: None,
        }
    }
}

impl PageRequest {
    /// The request for the page of this number.
    pub fn page(&self, page: usize) -> (r: Request)
        ensures
            r@ == self@.at(page as nat),
    {
        let mut headers: Vec<(String, String)> = Vec::new();
        append_pairs(&mut headers, &self.headers);
        let mut query: Vec<(String, String)> = Vec::new();
        query.push((self.size_param.clone(), to_decimal(self.page_size)));
        query.push(("page".to_owned(), to_decimal(page)));
        assert(pairs(query@) =~= seq![
            (self.size_param@, decimal(self.page_size as nat)),
            ("page"@, decimal(page as nat)),
        ]);
        append_pairs(&mut query, &self.extra);
        let r = Request { method: Method::Get, url: self.url.clone(), headers, query, body: None };
        assert(r@.headers =~= self@.headers);
        r
    }
}

/// A paginated list in the course of being fetched: the pages that came so far,
/// and the page to ask for next.
pub struct Pages {
    page_size: usize,
    max_pages: usize,
    next: Option<usize>,
    items: Vec<Json>,
}

/// The items of a run of pages, one page after the other.
pub open spec fn joined(pages: Seq<Seq<Json>>) -> Seq<Json>
    decreases pages.len(),
{
    if pages.len() == 0 {
        Seq::empty()
    } else {
        joined(pages.drop_last()) + pages.last()
    }
}

/// The 1-based number of the page to ask for once `pages` have come: none after a
/// page with fewer than `page_size` items, nor beyond `max_pages`.
pub open spec fn page_after(pages: Seq<Seq<Json>>, page_size: nat, max_pages: nat) -> Option<nat> {
    if pages.len() >= max_pages || (pages.len() > 0 && pages.last().len() < page_size) {
        None
    } else {
        Some(pages.len() + 1)
    }
}

impl Pages {
    /// The items that came so far.
    pub closed spec fn collected(self) -> Seq<Json> {
        self.items@
    }

    /// The number of the page to ask for next.
    pub closed spec fn wanted(self) -> Option<usize> {
        self.next
    }

    /// The page size.
    pub closed spec fn size(self) -> usize {
        self.page_size
    }

    /// The number of pages that is not exceeded.
    pub closed spec fn limit(self) -> usize {
        self.max_pages
    }

    #[verifier::type_invariant]
    closed spec fn within_limit(self) -> bool {
        self.next is Some ==> 1 <= self.next.unwrap() <= self.max_pages
    }

    /// Whether this is what stands after the pages `pages` have come, in this order.
    pub open spec fn holds(self, pages: Seq<Seq<Json>>) -> bool {
        &&& self.collected() == joined(pages)
        &&& match self.wanted() {
            Some(page) => page_after(pages, self.size() as nat, self.limit() as nat) == Some(page as nat),
            None => page_after(pages, self.size() as nat, self.limit() as nat) is None,
        }
    }

    /// A list of which nothing has come yet.
    pub fn new(page_size: usize, max_pages: usize) -> (r: Pages)
        ensures
            r.size() == page_size,
            r.limit() == max_pages,
            r.holds(Seq::empty()),
    {
        Pages {
            page_size,
            max_pages,
            next: if max_pages > 0 {
                Some(1)
            } else {
                None
            },
            items: Vec::new(),
        }
    }

    /// The page to ask for next; `None` when the list is complete.
    pub fn next_page(&self) -> (r: Option<usize>)
        ensures
            r == self.wanted(),
    {
        self.next
    }

    /// The items of all pages.
    pub fn into_items(self) -> (r: Vec<Json>)
        ensures
            r@ == self.collected(),
    {
        self.items
    }
}

/// Takes in the items of the page that was asked for. Stops when a page holds
/// fewer than the page size (or the page limit is reached).
pub fn paginate(list: Pages, page: Vec<Json>) -> (r: Pages)
    ensures
        r.size() == list.size(),
        r.limit() == list.limit(),
        r.collected() == list.collected() + page@,
        match (list.wanted(), r.wanted()) {
            (Some(asked), Some(next)) => {
                next == asked + 1 && asked < list.limit() && page@.len() >= list.size()
            },
            (Some(asked), None) => asked == list.limit() || page@.len() < list.size(),
            (None, next) => next is None,
        },
        forall|pages: Seq<Seq<Json>>|
            list.holds(pages) && list.wanted() is Some ==> r.holds(#[trigger] pages.push(page@)),
{
    proof {
        use_type_invariant(&list);
    }
    let ghost start = list;
    let ghost came = page@;
    let Pages { page_size, max_pages, next, items } = list;
    let n: usize = page.len();
    let mut page = page;
    let mut items = items;
    items.append(&mut page);
    let next = match next {
        Some(asked) => if n < page_size || asked == max_pages {
            None
        } else {
            Some(asked + 1)
        },
        None => None,
    };
    let r = Pages { page_size, max_pages, next, items };
    proof {
        assert forall|pages: Seq<Seq<Json>>| start.holds(pages) && start.wanted() is Some implies r.holds(
            #[trigger] pages.push(came),
        ) by {
            assert(pages.push(came).drop_last() == pages);
        }
    }
    r
}

/// Whether these are all pages of a list: each was asked for, and after the last one
/// no other is.
pub open spec fn all_pages(pages: Seq<Seq<Json>>, page_size: nat, max_pages: nat) -> bool {
    &&& page_after(pages, page_size, max_pages) is None
    &&& forall|k: int|
        0 <= k < pages.len() ==> page_after(#[trigger] pages.take(k), page_size, max_pages) is Some
}

/// The pages of a list: there are no more than the limit, only the last one holds
/// fewer items than the page size, and it does unless the limit was reached.
pub proof fn law_only_the_last_page_is_short(
    pages: Seq<Seq<Json>>,
    page_size: nat,
    max_pages: nat,
)
    requires
        all_pages(pages, page_size, max_pages),
    ensures
        pages.len() <= max_pages,
        forall|k: int| 0 <= k < pages.len() - 1 ==> (#[trigger] pages[k]).len() >= page_size,
        pages.len() == max_pages || pages.last().len() < page_size,
{
    if pages.len() > 0 {
        assert(page_after(pages.take(pages.len() - 1), page_size, max_pages) is Some);
    }
    assert forall|k: int| 0 <= k < pages.len() - 1 implies (#[trigger] pages[k]).len() >= page_size by {
        assert(page_after(pages.take(k + 1), page_size, max_pages) is Some);
        assert(pages.take(k + 1).last() == pages[k]);
    }
}

/// What is worth another try: of failures without an answer those by a timeout or on
/// connecting, of answers those with code 429 or a code from 500 to 599.
pub proof fn law_transient_failures(timeout: bool, connect: bool, reason: String, code: u16, line: String, body: String)
    ensures
        (SendError::Transport { timeout, connect, reason }).transient() <==> timeout || connect,
        (SendError::Status { code, line, body }).transient() <==> code == 429 || code / 100 == 5,
{
}

/// Success is a code from 200 to 299.
pub proof fn law_success_codes(code: u16)
    ensures
        success_code(code) <==> code / 100 == 2,
{
}

/// A failure in words names the reason, or the status line and the beginning of the
/// body.
pub proof fn law_failures_in_words(timeout: bool, connect: bool, reason: String, code: u16, line: String, body: String)
    ensures
        (SendError::Transport { timeout, connect, reason }).words() == "HTTP request failed: "@ + reason@,
        body@.len() <= 600 ==> (SendError::Status { code, line, body }).words() == "API returned HTTP "@
            + line@ + ": "@ + body@,
        body@.len() > 600 ==> (SendError::Status { code, line, body }).words() == "API returned HTTP "@
            + line@ + ": "@ + body@.take(600).push('\u{2026}'),
{
}

/// A text that is cut keeps as many characters as it may, from the beginning, and an
/// ellipsis after them; a text that fits is left alone.
pub proof fn law_cut_text_keeps_its_beginning(s: Seq<char>, max: nat)
    ensures
        s.len() <= max ==> shortened(s, max) == s,
        s.len() > max ==> {
            &&& shortened(s, max).len() == max + 1
            &&& forall|i: int| 0 <= i < max ==> #[trigger] shortened(s, max)[i] == s[i]
            &&& shortened(s, max)[max as int] == '\u{2026}'
        },
{
}

/// The request for a page asks for the size and the number of the page, and else for
/// what the list says.
pub proof fn law_page_request(list: PageRequestView, page: nat)
    ensures
        ({
            let r = list.at(page);
            &&& r.method == Method::Get
            &&& r.url == list.url
            &&& r.headers == list.headers
            &&& r.body is None
            &&& r.query.len() == list.extra.len() + 2
            &&& r.query[0].0 == list.size_param
            &&& decimal_value(r.query[0].1) == list.page_size
            &&& r.query[1].0 == "page"@
            &&& decimal_value(r.query[1].1) == page
            &&& r.query.skip(2) == list.extra
        }),
{
    law_decimal_reads_back(list.page_size);
    law_decimal_reads_back(page);
    assert(list.at(page).query.skip(2) =~= list.extra);
}

/// Pages are asked for in turn, beginning with the first: the next one as long as the
/// limit is not reached and no page came short.
pub proof fn law_pages_are_asked_for_in_turn(
    pages: Seq<Seq<Json>>,
    page: Seq<Json>,
    page_size: nat,
    max_pages: nat,
)
    ensures
        page_after(Seq::empty(), page_size, max_pages) == if max_pages == 0 {
            None
        } else {
            Some(1nat)
        },
        page_after(pages.push(page), page_size, max_pages) == if page.len() < page_size || pages.len() + 1
            >= max_pages {
            None
        } else {
            Some(pages.len() + 2)
        },
{
}

/// The items of a list are those of its pages, page after page.
pub proof fn law_items_stand_page_after_page(pages: Seq<Seq<Json>>, page: Seq<Json>)
    ensures
        joined(Seq::empty()) == Seq::<Json>::empty(),
        joined(pages.push(page)) == joined(pages) + page,
{
    assert(pages.push(page).drop_last() == pages);
}

/// A request holds what its fields hold.
pub proof fn law_request_is_its_fields(r: Request, p: PageRequest)
    ensures
        r@.method == r.method && r@.url == r.url@ && r@.body == r.body,
        r@.headers.len() == r.headers@.len() && r@.query.len() == r.query@.len(),
        forall|i: int|
            0 <= i < r.headers@.len() ==> #[trigger] r@.headers[i] == (r.headers@[i].0@, r.headers@[i].1@),
        forall|i: int|
            0 <= i < r.query@.len() ==> #[trigger] r@.query[i] == (r.query@[i].0@, r.query@[i].1@),
        p@.url == p.url@ && p@.size_param == p.size_param@,
        p@.page_size == p.page_size && p@.max_pages == p.max_pages,
        p@.headers.len() == p.headers@.len() && p@.extra.len() == p.extra@.len(),
        forall|i: int|
            0 <= i < p.headers@.len() ==> #[trigger] p@.headers[i] == (p.headers@[i].0@, p.headers@[i].1@),
        forall|i: int|
            0 <= i < p.extra@.len() ==> #[trigger] p@.extra[i] == (p.extra@[i].0@, p.extra@[i].1@),
{
}

/// A list in the course of being fetched holds the items of the pages that came, page
/// after page, and wants the page after the last one, as long as none came short and the
/// limit is not reached.
pub proof fn law_list_in_course(list: Pages, pages: Seq<Seq<Json>>)
    requires
        list.holds(pages),
    ensures
        list.collected() == joined(pages),
        list.wanted() matches Some(n) ==> {
            &&& n == pages.len() + 1
            &&& n <= list.limit()
            &&& pages.len() > 0 ==> pages.last().len() >= list.size()
        },
        list.wanted() is None ==> {
            ||| pages.len() >= list.limit()
            ||| pages.len() > 0 && pages.last().len() < list.size()
        },
{
}

} // verus!
