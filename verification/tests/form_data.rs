use http1::forms::form_data::{
    get_multipart_and_boundary, FieldError, FormData, FormDataConfig, FormDataError,
};
use http1::forms::form::{read_form, RejectFormError};
use http1::headers::Headers;

enum TestFormField {
    Text {
        name: &'static str,
        value: &'static str,
    },
    File {
        name: &'static str,
        filename: &'static str,
        content_type: &'static str,
        value: Vec<u8>,
    },
}

struct TestForm {
    boundary: &'static str,
    fields: Vec<TestFormField>,
}

impl TestForm {
    fn new(boundary: &'static str) -> Self {
        TestForm {
            boundary,
            fields: vec![],
        }
    }

    fn text(mut self, name: &'static str, value: &'static str) -> Self {
        self.fields.push(TestFormField::Text { name, value });
        self
    }

    fn file(
        mut self,
        name: &'static str,
        filename: &'static str,
        content_type: &'static str,
        value: Vec<u8>,
    ) -> Self {
        self.fields.push(TestFormField::File {
            name,
            filename,
            content_type,
            value,
        });
        self
    }

    fn to_bytes(&self) -> Vec<u8> {
        let boundary = self.boundary;
        let mut form_data = vec![];
        form_data.extend_from_slice(format!("--{boundary}\r\n").as_bytes());
        for (idx, field) in self.fields.iter().enumerate() {
            if idx > 0 {
                form_data.extend_from_slice(format!("--{boundary}\r\n").as_bytes());
            }
            match field {
                TestFormField::Text { name, value } => {
                    let content_disposition =
                        format!("Content-Disposition: form-data; name=\"{name}\"\r\n\r\n");
                    form_data.extend_from_slice(content_disposition.as_bytes());
                    form_data.extend_from_slice(value.as_bytes());
                    form_data.extend_from_slice(b"\r\n");
                }
                TestFormField::File {
                    name,
                    filename,
                    content_type,
                    value,
                } => {
                    let content_disposition = format!(
                        "Content-Disposition: form-data; name=\"{name}\"; filename=\"{filename}\"\r\n"
                    );
                    form_data.extend_from_slice(content_disposition.as_bytes());
                    let content_type = format!("Content-Type: {content_type}\r\n\r\n");
                    form_data.extend_from_slice(content_type.as_bytes());
                    form_data.extend_from_slice(value);
                    form_data.extend_from_slice(b"\r\n");
                }
            }
        }
        form_data.extend_from_slice(format!("--{boundary}--\r\n").as_bytes());
        form_data
    }
}

fn content_type_headers(value: String) -> Headers {
    let mut headers = Headers::new();
    headers.append("Content-Type".to_string(), value);
    headers
}

fn form_from(content_type: String, body: &[u8], config: FormDataConfig) -> FormData {
    FormData::from_request(&content_type_headers(content_type), body, config).unwrap()
}

#[test]
fn should_read_text_and_then_file() {
    let boundary = "x-my-boundary";

    let mut s = String::new();
    s.push_str(&format!("--{boundary}\r\n"));
    s.push_str("Content-Disposition: form-data; name=\"text_field\"\r\n\r\n");
    s.push_str("This is the text content\r\n");
    s.push_str(&format!("--{boundary}\r\n"));
    s.push_str("Content-Disposition: form-data; name=\"file_field\"; filename=\"file.txt\"\r\n");
    s.push_str("Content-Type: text/plain\r\n\r\n");
    s.push_str("This is the content of the file\r\n");
    s.push_str(&format!("--{boundary}--\r\n"));

    let mut form_data = form_from(
        format!("multipart/form-data;boundary={boundary}"),
        s.as_bytes(),
        FormDataConfig::default(),
    );

    {
        let field = form_data.next_field().unwrap().unwrap();
        assert_eq!(field.name(), "text_field");
        assert_eq!(field.filename(), None);
        assert_eq!(field.text(&mut form_data).unwrap(), "This is the text content");
    }

    {
        let field = form_data.next_field().unwrap().unwrap();
        assert_eq!(field.name(), "file_field");
        assert_eq!(field.filename(), Some("file.txt"));
        assert_eq!(
            field.text(&mut form_data).unwrap(),
            "This is the content of the file"
        );
    }

    {
        let field = form_data.next_field().unwrap();
        assert!(field.is_none());
    }
}

#[test]
fn should_read_file_and_then_text() {
    let boundary = "x-my-boundary";

    let mut s = String::new();
    s.push_str(&format!("--{boundary}\r\n"));
    s.push_str("Content-Disposition: form-data; name=\"file_field\"; filename=\"file.txt\"\r\n");
    s.push_str("Content-Type: text/plain\r\n\r\n");
    s.push_str("This is the content of the file\r\n");
    s.push_str(&format!("--{boundary}\r\n"));
    s.push_str("Content-Disposition: form-data; name=\"text_field\"\r\n\r\n");
    s.push_str("This is the text content\r\n");
    s.push_str(&format!("--{boundary}--\r\n"));

    let mut form_data = form_from(
        format!("multipart/form-data;boundary={boundary}"),
        s.as_bytes(),
        FormDataConfig::default(),
    );

    {
        let field = form_data.next_field().unwrap().unwrap();
        assert_eq!(field.name(), "file_field");
        assert_eq!(field.filename(), Some("file.txt"));
        assert_eq!(
            field.text(&mut form_data).unwrap(),
            "This is the content of the file"
        );
    }

    {
        let field = form_data.next_field().unwrap().unwrap();
        assert_eq!(field.name(), "text_field");
        assert_eq!(field.filename(), None);
        assert_eq!(field.text(&mut form_data).unwrap(), "This is the text content");
    }

    {
        let field = form_data.next_field().unwrap();
        assert!(field.is_none());
    }
}

#[test]
fn should_read_multiple_form_data_fields() {
    let boundary = "WebKitFormBoundaryDtbT5UpPj83kllfw";

    let mut s = String::new();
    s.push_str(&format!("--{boundary}\r\n"));
    s.push_str(
        "Content-Disposition: form-data; name=\"uploads[]\"; filename=\"somebinary.dat\"\r\n",
    );
    s.push_str("Content-Type: application/octet-stream\r\n\r\n");
    s.push_str("some binary data...maybe the bits of a image..\r\n");
    s.push_str(&format!("--{boundary}\r\n"));
    s.push_str(
        "Content-Disposition: form-data; name=\"uploads[]\"; filename=\"sometext.txt\"\r\n",
    );
    s.push_str("Content-Type: text/plain\r\n\r\n");
    s.push_str("hello how are you\r\n");
    s.push_str(&format!("--{boundary}\r\n"));
    s.push_str("Content-Disposition: form-data; name=\"input1\"\r\n\r\n");
    s.push_str("value1\r\n");
    s.push_str(&format!("--{boundary}--\r\n"));

    let mut form_data = form_from(
        format!("multipart/form-data; boundary={boundary}"),
        s.as_bytes(),
        FormDataConfig::default(),
    );

    {
        let field = form_data.next_field().unwrap().unwrap();
        assert_eq!(field.name(), "uploads[]");
        assert_eq!(field.filename(), Some("somebinary.dat"));
        assert_eq!(field.content_type().unwrap(), "application/octet-stream");
        assert_eq!(
            field.text(&mut form_data).unwrap(),
            "some binary data...maybe the bits of a image.."
        );
    }

    {
        let field = form_data.next_field().unwrap().unwrap();
        assert_eq!(field.name(), "uploads[]");
        assert_eq!(field.filename(), Some("sometext.txt"));
        assert_eq!(field.content_type().unwrap(), "text/plain");
        assert_eq!(field.text(&mut form_data).unwrap(), "hello how are you");
    }

    {
        let field = form_data.next_field().unwrap().unwrap();
        assert_eq!(field.name(), "input1");
        assert_eq!(field.filename(), None);
        assert_eq!(field.text(&mut form_data).unwrap(), "value1");
    }

    {
        let field = form_data.next_field().unwrap();
        assert!(field.is_none());
    }
}

#[test]
fn should_read_byte_buffer() {
    let mut binary_data = Vec::new();
    for i in 0..256 {
        binary_data.push((i % 256) as u8);
    }

    let boundary = "x-my-boundary";
    let mut content = Vec::new();
    content.extend_from_slice(format!("--{boundary}\r\n").as_bytes());
    content.extend_from_slice(
        "Content-Disposition: form-data; name=\"binary_field\"; filename=\"binary.bin\"\r\n"
            .as_bytes(),
    );
    content.extend_from_slice("Content-Type: application/octet-stream\r\n\r\n".as_bytes());
    content.extend_from_slice(&binary_data);
    content.extend_from_slice(b"\r\n");
    content.extend_from_slice(format!("--{boundary}--\r\n").as_bytes());

    let mut form_data = form_from(
        format!("multipart/form-data;boundary={boundary}"),
        &content,
        FormDataConfig::default(),
    );

    {
        let field = form_data.next_field().unwrap().unwrap();
        assert_eq!(field.name(), "binary_field");
        assert_eq!(field.filename(), Some("binary.bin"));
        let received_data = field.bytes(&mut form_data).unwrap();
        assert_eq!(received_data, binary_data, "different bytes");
    }

    {
        let field = form_data.next_field().unwrap();
        assert!(field.is_none());
    }
}

#[test]
fn should_read_byte_buffer_with_fixed_newline() {
    let mut binary_data = std::iter::successors(Some(0), |n| Some(n % 255))
        .take(512)
        .collect::<Vec<u8>>();
    binary_data.insert(binary_data.len() / 2, b'\n');

    let form = TestForm::new("my-form-data").file(
        "binary_field",
        "binary.bin",
        "application/octet-stream",
        binary_data.clone(),
    );
    let bytes = form.to_bytes();

    let mut form_data = form_from(
        format!("multipart/form-data;boundary={boundary}", boundary = form.boundary),
        &bytes,
        FormDataConfig::default(),
    );

    let field = form_data.next_field().unwrap().unwrap();
    assert_eq!(field.name(), "binary_field");
    assert_eq!(field.filename(), Some("binary.bin"));
    assert_eq!(field.bytes(&mut form_data).unwrap(), binary_data);
}

#[test]
fn should_fail_to_read_form_data_with_body_size_limit() {
    let binary_data = std::iter::successors(Some(0), |n| Some(n % 255))
        .take(512)
        .collect::<Vec<u8>>();

    let form = TestForm::new("my-form-data").file(
        "binary_field",
        "binary.bin",
        "application/octet-stream",
        binary_data,
    );
    let bytes = form.to_bytes();

    let config = FormDataConfig::default().max_body_size(200).buffer_size(16);
    let mut form_data = form_from(
        format!("multipart/form-data;boundary={boundary}", boundary = form.boundary),
        &bytes,
        config,
    );

    let field = form_data.next_field().unwrap().unwrap();
    assert_eq!(field.name(), "binary_field");
    assert_eq!(field.filename(), Some("binary.bin"));
    assert!(field.bytes(&mut form_data).is_err());
}

#[test]
fn should_fail_to_read_form_data_header_size_limit() {
    let form = TestForm::new("my-form-data").text("short", "hello").file(
        "this is a large binary field name",
        "this_is_a_large_file_name_for_the_binary_data_send_to_the_form_object.json",
        "application/json;charset=utf8",
        "Hello".as_bytes().to_vec(),
    );
    let bytes = form.to_bytes();

    let config = FormDataConfig::default().max_header_length(100);
    let mut form_data = form_from(
        format!("multipart/form-data;boundary={boundary}", boundary = form.boundary),
        &bytes,
        config,
    );

    let field1 = form_data.next_field();
    assert!(field1.is_ok());

    let field2 = form_data.next_field();
    assert!(field2.is_err());
}

#[test]
fn long_disposition_line_is_refused() {
    let form = TestForm::new("b").file(
        "this is a large binary field name",
        "this_is_a_large_file_name_for_the_binary_data_send_to_the_form_object.json",
        "application/json",
        b"Hello".to_vec(),
    );
    let bytes = form.to_bytes();
    let mut form_data = form_from(
        "multipart/form-data;boundary=b".to_string(),
        &bytes,
        FormDataConfig::default().max_header_length(100),
    );
    assert!(matches!(form_data.next_field(), Err(FieldError::Stream(_))));
}

#[test]
fn missing_first_boundary_is_reported() {
    let mut form_data = FormData::new("b", b"--c\r\n");
    match form_data.next_field() {
        Err(FieldError::MissingBoundary(b)) => assert_eq!(b, "--b"),
        other => panic!("unexpected {:?}", other.map(|f| f.map(|f| f.name().to_string()))),
    }
}

#[test]
fn missing_disposition_is_reported() {
    let mut form_data = FormData::new("b", b"--b\r\nContent-Type: text/plain\r\n\r\n");
    assert!(matches!(
        form_data.next_field(),
        Err(FieldError::MissingContentDisposition)
    ));
}

#[test]
fn unquoted_name_is_reported() {
    let mut form_data = FormData::new("b", b"--b\r\nContent-Disposition: form-data; name=x\r\n\r\n");
    assert!(matches!(form_data.next_field(), Err(FieldError::MissingName)));
}

#[test]
fn unquoted_filename_is_reported() {
    let mut form_data = FormData::new(
        "b",
        b"--b\r\nContent-Disposition: form-data; name=\"a\"; filename=f\r\n\r\n",
    );
    assert!(matches!(form_data.next_field(), Err(FieldError::MissingFilename)));
}

#[test]
fn file_without_content_type_is_reported() {
    let mut form_data = FormData::new(
        "b",
        b"--b\r\nContent-Disposition: form-data; name=\"a\"; filename=\"f\"\r\n\r\n",
    );
    assert!(matches!(form_data.next_field(), Err(FieldError::MissingContentType)));
}

#[test]
fn headers_without_blank_line_are_reported() {
    let mut form_data =
        FormData::new("b", b"--b\r\nContent-Disposition: form-data; name=\"a\"\r\nx\r\n");
    assert!(matches!(form_data.next_field(), Err(FieldError::ExpectedNewLine)));
}

#[test]
fn field_without_end_boundary_reads_to_the_end() {
    let mut form_data =
        FormData::new("b", b"--b\r\nContent-Disposition: form-data; name=\"a\"\r\n\r\nabc");
    let field = form_data.next_field().unwrap().unwrap();
    assert_eq!(field.bytes(&mut form_data).unwrap(), b"abc".to_vec());
}

#[test]
fn boundary_without_line_ending_is_reported() {
    let mut form_data =
        FormData::new("b", b"--b\r\nContent-Disposition: form-data; name=\"a\"\r\n\r\nabc\r\n--bxx");
    let field = form_data.next_field().unwrap().unwrap();
    assert!(matches!(
        field.bytes(&mut form_data),
        Err(FieldError::ExpectedLineEnding)
    ));
}

#[test]
fn field_text_must_be_utf8() {
    let mut form_data = FormData::new(
        "b",
        b"--b\r\nContent-Disposition: form-data; name=\"a\"\r\n\r\n\xff\xfe\r\n--b--\r\n",
    );
    let field = form_data.next_field().unwrap().unwrap();
    assert!(matches!(field.text(&mut form_data), Err(FieldError::Utf8Error)));
}

#[test]
fn boundary_is_taken_from_the_content_type() {
    assert_eq!(
        get_multipart_and_boundary("multipart/form-data; boundary=abc").unwrap(),
        "abc"
    );
    assert_eq!(
        get_multipart_and_boundary("multipart/form-data;boundary=x;charset=utf8").unwrap(),
        "x"
    );
    assert!(matches!(
        get_multipart_and_boundary("text/plain; boundary=abc"),
        Err(FormDataError::InvalidContentType(t)) if t == "text/plain"
    ));
    assert!(matches!(
        get_multipart_and_boundary("multipart/form-data"),
        Err(FormDataError::BoundaryNoFound)
    ));
    assert!(matches!(
        get_multipart_and_boundary("multipart/form-data; charset=utf8"),
        Err(FormDataError::BoundaryNoFound)
    ));
}

#[test]
fn request_without_content_type_has_no_form() {
    let headers = Headers::new();
    assert!(matches!(
        FormData::from_request(&headers, b"", FormDataConfig::default()),
        Err(FormDataError::NoContentType)
    ));
}

#[test]
fn config_builders_set_one_value() {
    let c = FormDataConfig::default();
    assert_eq!(c.max_header_length, 1024);
    assert_eq!(c.max_body_size, 4194304);
    assert_eq!(c.buffer_size, 8192);
    let c = c.max_header_length(1).max_body_size(2).buffer_size(3);
    assert_eq!(
        c,
        FormDataConfig {
            max_header_length: 1,
            max_body_size: 2,
            buffer_size: 3
        }
    );
}

#[test]
fn field_is_kept_in_memory() {
    let form = TestForm::new("b").file("f", "a.txt", "text/plain", b"hi there".to_vec());
    let bytes = form.to_bytes();
    let mut form_data = FormData::new("b", &bytes);
    let field = form_data.next_field().unwrap().unwrap();
    let stored = field.to_memory(&mut form_data).unwrap();
    assert_eq!(stored.name(), "f");
    assert_eq!(stored.filename(), Some("a.txt"));
    assert_eq!(stored.content_type(), Some("text/plain"));
    assert_eq!(stored.text().unwrap(), "hi there");
    assert!(form_data.next_field().unwrap().is_none());
}

#[test]
fn url_encoded_form_is_read_as_query_map() {
    let h = content_type_headers("application/x-www-form-urlencoded; charset=utf-8".to_string());
    let map = read_form(&h, b"name=John%20Doe&age=30&age=31".to_vec()).unwrap();
    assert_eq!(map.get("name"), Some("John Doe"));
    assert_eq!(map.get_all("age"), vec!["30", "31"]);

    let h = content_type_headers("text/plain".to_string());
    assert!(matches!(
        read_form(&h, b"a=1".to_vec()),
        Err(RejectFormError::InvalidContentType(t)) if t == "text/plain"
    ));
    assert!(matches!(read_form(&Headers::new(), vec![]), Err(RejectFormError::NoContentType)));
    let h = content_type_headers("application/x-www-form-urlencoded".to_string());
    assert!(matches!(read_form(&h, vec![0xff]), Err(RejectFormError::Utf8Error)));
    assert!(matches!(
        read_form(&h, b"a=%zz".to_vec()),
        Err(RejectFormError::InvalidUriComponent(_))
    ));
}
