use vstd::prelude::*;
use vstd::string::*;
use crate::clearing::Clearing;
use crate::codec::{decoded, lists, parse_raw_cars_list, Car, Plate};
use crate::text::{escape_value, is_digit, query_value};
use crate::protocol::{
    classify, reply_outcome, write_outcome, CameraError, Fault, Reply, Request, TIMEOUT_MS,
};

verus! {

/// A camera's control interface: where it is and the credentials it takes.
pub struct Camera {
    pub ip: String,
    pub username: String,
    pub password: String,
}

/// The address of the camera's plate-list interface.
pub open spec fn base_url(ip: Seq<char>) -> Seq<char> {
    "http://"@ + ip + "/cgi-bin/lnpr_cgi"@
}

/// The address that asks for the plate list.
pub open spec fn list_url(ip: Seq<char>) -> Seq<char> {
    base_url(ip) + "?action=list"@
}

/// The address that adds (`action` is `add`) or edits (`edit`) the entry `c`;
/// each value is escaped, which leaves plate numbers and dates as they are.
pub open spec fn write_url(ip: Seq<char>, action: Seq<char>, c: Plate) -> Seq<char> {
    base_url(ip) + "?action="@ + action + "&Number="@ + query_value(c.number) + "&Begin="@
        + query_value(c.begin_date) + "&End="@ + query_value(c.end_date)
}

/// The address that removes the plate `number`, escaped.
pub open spec fn remove_url(ip: Seq<char>, number: Seq<char>) -> Seq<char> {
    base_url(ip) + "?action=remove&Number="@ + query_value(number)
}

/// `r` asks `url` of the camera with its credentials and the usual time limit.
pub open spec fn asks(r: Request, cam: Camera, url: Seq<char>) -> bool {
    &&& r.url@ == url
    &&& r.username@ == cam.username@
    &&& r.password@ == cam.password@
    &&& r.timeout_ms == TIMEOUT_MS
}

/// `c` after `add` has given it dates: where both dates are empty both
/// become `today`, else `c` stays as it is.
pub open spec fn filled(c: Plate, today: Seq<char>) -> Plate {
    if c.begin_date.len() == 0 && c.end_date.len() == 0 {
        Plate { number: c.number, begin_date: today, end_date: today }
    } else {
        c
    }
}

/// What a reply to the list request gives: the slots of the list in
/// ascending order, or the failure.
pub open spec fn list_result(reply: Reply, r: Result<Vec<(usize, Car)>, CameraError>) -> bool {
    match reply_outcome(reply) {
        Err(f) => r is Err && r->Err_0@ == f,
        Ok(body) => match r {
            Ok(v) => decoded(body) is Some && lists(v@, decoded(body)->Some_0),
            Err(e) => decoded(body) is None && e@ == Fault::MalformedResponse,
        },
    }
}

/// A date as `%Y-%m-%d` writes it: at least ten characters, each a digit,
/// `-` or `+` (a year outside 0..=9999 gets a sign and more digits).
pub open spec fn date_text(s: Seq<char>) -> bool {
    &&& s.len() >= 10
    &&& forall|k: int| 0 <= k < s.len() ==> is_digit(#[trigger] s[k]) || s[k] == '-' || s[k] == '+'
}

/// Relies on chrono's `Local::now`, formatted with `%Y-%m-%d`: today's date
/// in the machine's time zone; the year has at least four digits, month
/// and day two each.
#[verifier::external_body]
fn local_today() -> (r: String)
    ensures
        date_text(r@),
{
    chrono::Local::now().format("%Y-%m-%d").to_string()
}

/// Reads a reply to the list request: the entries by ascending slot.
pub fn read_list(reply: Reply) -> (r: Result<Vec<(usize, Car)>, CameraError>)
    ensures
        list_result(reply, r),
{
    match classify(reply) {
        Ok(body) => parse_raw_cars_list(body.as_str()),
        Err(e) => Err(e),
    }
}

impl Camera {
    /// A camera at `ip` that takes the given credentials.
    pub fn new(ip: String, username: String, password: String) -> (r: Camera)
        ensures
            r.ip == ip,
            r.username == username,
            r.password == password,
    {
        Camera { ip, username, password }
    }

    /// A request to `url`, carrying this camera's credentials.
    fn request(&self, url: String) -> (r: Request)
        ensures
            asks(r, *self, url@),
    {
        Request {
            url,
            username: self.username.clone(),
            password: self.password.clone(),
            timeout_ms: TIMEOUT_MS,
        }
    }

    fn base(&self) -> (r: String)
        ensures
            r@ == base_url(self.ip@),
    {
        let mut url = String::from_str("http://");
        url.append(self.ip.as_str());
        url.append("/cgi-bin/lnpr_cgi");
        url
    }

    fn write_request(&self, action: &str, car: &Car) -> (r: Request)
        ensures
            asks(r, *self, write_url(self.ip@, action@, car@)),
    {
        let mut url = self.base();
        url.append("?action=");
        url.append(action);
        url.append("&Number=");
        url.append(escape_value(car.number.as_str()).as_str());
        url.append("&Begin=");
        url.append(escape_value(car.begin_date.as_str()).as_str());
        url.append("&End=");
        url.append(escape_value(car.end_date.as_str()).as_str());
        self.request(url)
    }

    /// The request for the plate list; `read_list` reads the reply.
    pub fn list_numbers(&self) -> (r: Request)
        ensures
            asks(r, *self, list_url(self.ip@)),
    {
        let mut url = self.base();
        url.append("?action=list");
        self.request(url)
    }

    /// Gives `car` dates where it has none (both become `today`), and
    /// returns the request that adds it; `write_status` reads the reply.
    pub fn add_on(&self, car: &mut Car, today: &str) -> (r: Request)
        ensures
            final(car)@ == filled(old(car)@, today@),
            asks(r, *self, write_url(self.ip@, "add"@, final(car)@)),
    {
        if car.begin_date.as_str().is_empty() && car.end_date.as_str().is_empty() {
            car.begin_date = today.to_owned();
            car.end_date = today.to_owned();
        }
        self.write_request("add", car)
    }

    /// As `add_on`, with today's local date: where `car` has no dates it
    /// gets today as both its first and last day; else it stays as given.
    pub fn add(&self, car: &mut Car) -> (r: Request)
        ensures
            !(old(car).begin_date@.len() == 0 && old(car).end_date@.len() == 0) ==> final(car)@
                == old(car)@,
            old(car).begin_date@.len() == 0 && old(car).end_date@.len() == 0 ==> {
                &&& final(car).number@ == old(car).number@
                &&& final(car).begin_date@ == final(car).end_date@
                &&& date_text(final(car).begin_date@)
            },
            asks(r, *self, write_url(self.ip@, "add"@, final(car)@)),
    {
        if car.begin_date.as_str().is_empty() && car.end_date.as_str().is_empty() {
            let today = local_today();
            self.add_on(car, today.as_str())
        } else {
            self.write_request("add", car)
        }
    }

    /// The request that edits the entry of `car`'s plate to `car`'s dates;
    /// `write_status` reads the reply.
    pub fn edit(&self, car: &Car) -> (r: Request)
        ensures
            asks(r, *self, write_url(self.ip@, "edit"@, car@)),
    {
        self.write_request("edit", car)
    }

    /// The request that removes `car`'s plate; `write_status` reads the reply.
    pub fn remove(&self, car: &Car) -> (r: Request)
        ensures
            asks(r, *self, remove_url(self.ip@, car.number@)),
    {
        let mut url = self.base();
        url.append("?action=remove&Number=");
        url.append(escape_value(car.number.as_str()).as_str());
        self.request(url)
    }

    /// Begins the removal of every entry whose last day is `end_date`
    /// (today's local date where it is empty): the clearing, and the request
    /// for the plate list with which it begins. `Clearing::step` goes on.
    pub fn remove_cars(&self, end_date: &str) -> (r: (Clearing, Request))
        ensures
            r.0.wf(),
            end_date@.len() > 0 ==> r.0.end_date@ == end_date@,
            end_date@.len() == 0 ==> date_text(r.0.end_date@),
            r.0.end_date@.len() > 0,
            r.0.pending@.len() == 0,
            r.0.removed == 0,
            r.0.stage is Listing,
            asks(r.1, *self, list_url(self.ip@)),
    {
        let date = if end_date.is_empty() {
            local_today()
        } else {
            end_date.to_owned()
        };
        Clearing::new(self, date)
    }
}

/// A reply with status 401 stands for refused credentials in every
/// operation, whatever its body: it is neither a success nor a device error.
pub proof fn unauthorized_reply(body: String, r: Result<Vec<(usize, Car)>, CameraError>)
    ensures
        reply_outcome(Reply::Received { status: 401, body }) == Err::<Seq<char>, Fault>(
            Fault::Unauthorized,
        ),
        write_outcome(Reply::Received { status: 401, body }) == Err::<Seq<char>, Fault>(
            Fault::Unauthorized,
        ),
        list_result(Reply::Received { status: 401, body }, r) ==> r is Err && r->Err_0@
            == Fault::Unauthorized,
{
}

} // verus!
